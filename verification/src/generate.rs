//! The structured instance generator: a seeded, streaming producer of
//! layered multi-objective CNF instances with structured gadgets and bounded
//! soft weights.
//!
//! The stream is a finite sequence of lines in a fixed order: ten header
//! comments, one comment per layer, all layer clauses, then the equality,
//! AND, XOR3 and XOR4 gadget clauses. A gadget emits one clause of its batch
//! at once and leaves the rest in a buffer that is drained before the cursor
//! advances. The invariants maintained across the stream: the clause count
//! declared in the header equals the number of clause lines emitted, no
//! layer, equality or AND clause repeats a variable, every soft weight is at
//! least one, and the total soft weight stays below the cost ceiling.

use vstd::prelude::*;

use crate::config::InstConfig;
use crate::inst::{no_dup_vars, Clause, Lit};
use crate::rng::{chacha_range, Rng};

verus! {

/// The per-clause soft annotation and the clause itself: `None` marks a hard
/// clause, `Some((o, w))` a soft clause of objective `o` with weight `w`.
pub type Cl = (Option<(u8, u64)>, Clause);

/// One line of the generator's output stream.
#[derive(Debug)]
pub enum GenLine {
    Comment(String),
    Hard(Clause),
    Soft(Clause, u64, usize),
}

/// Turns an annotated clause into its output line.
pub fn map_clause(clause: Cl) -> (r: GenLine)
    ensures
        clause.0 matches Some(t) ==> r == GenLine::Soft(clause.1, t.1, t.0 as usize),
        clause.0 is None ==> r == GenLine::Hard(clause.1),
{
    match clause.0 {
        Some((o, w)) => GenLine::Soft(clause.1, w, o as usize),
        None => GenLine::Hard(clause.1),
    }
}

/// A contiguous variable range `[lo, hi)` with its clause budget, optional
/// soft objective (`0` marks a hard layer, else objective index plus one),
/// and the pool of literals of the range not yet used in a clause.
#[derive(Debug)]
pub struct Layer {
    pub lo: u32,
    pub hi: u32,
    pub n_clauses: u32,
    pub soft: u8,
    pub unused: Vec<Lit>,
}

/// The streaming cursor.
#[derive(Debug, Clone, Copy, PartialEq, Eq, Structural)]
pub enum LineType {
    Header(u8),
    LayerDesc(u8),
    LayerCl(u8, u32),
    EqCl(u32),
    AndCl(u32),
    Xor3Cl(u32),
    Xor4Cl(u32),
}

impl Default for LineType {
    fn default() -> (r: Self)
        ensures
            r == LineType::Header(0),
    {
        LineType::Header(0)
    }
}

/// What the generator has emitted so far: line and clause counts, and the
/// per-objective sums of emitted soft weights.
pub ghost struct EmitStats {
    pub lines: int,
    pub clauses: int,
    pub soft: Seq<int>,
    pub soft_counts: Seq<int>,
}

/// The layer index a seeded source picks for a whole-range variable draw.
pub open spec fn layer_pick(seed: u64, h: Seq<(u64, u64)>, layers: Seq<Layer>) -> int {
    chacha_range(seed, h, 0, (layers.len() - 1) as u64) as int
}

/// The variable a seeded source draws over the whole range: a layer at
/// uniform, then a variable of its range.
pub open spec fn var_draw(seed: u64, h: Seq<(u64, u64)>, layers: Seq<Layer>) -> u64 {
    let li = layer_pick(seed, h, layers);
    chacha_range(
        seed,
        h.push((0u64, (layers.len() - 1) as u64)),
        layers[li].lo as u64,
        (layers[li].hi - 1) as u64,
    )
}

/// The draw history after one whole-range variable draw.
pub open spec fn var_draw_hist(seed: u64, h: Seq<(u64, u64)>, layers: Seq<Layer>) -> Seq<
    (u64, u64),
> {
    let li = layer_pick(seed, h, layers);
    h.push((0u64, (layers.len() - 1) as u64)).push(
        (layers[li].lo as u64, (layers[li].hi - 1) as u64),
    )
}

/// The literal a seeded source draws over the whole range: a whole-range
/// variable draw followed by a polarity coin, as variable and negation flag.
pub open spec fn lit_draw(seed: u64, h: Seq<(u64, u64)>, layers: Seq<Layer>) -> (u64, bool) {
    (var_draw(seed, h, layers), chacha_range(seed, var_draw_hist(seed, h, layers), 0, 1) < 1)
}

/// The draw history after one whole-range literal draw.
pub open spec fn lit_draw_hist(seed: u64, h: Seq<(u64, u64)>, layers: Seq<Layer>) -> Seq<
    (u64, u64),
> {
    var_draw_hist(seed, h, layers).push((0u64, 1u64))
}

/// A bounded-weight draw after the cost-ceiling clamp: the raw range draw,
/// lowered to the remaining room under the ceiling when it would overrun it.
pub open spec fn clamped_weight(draw: u64, room: int) -> int {
    if draw as int > room {
        room
    } else {
        draw as int
    }
}

pub open spec fn seq_sum_u64(s: Seq<u64>) -> int
    decreases s.len(),
{
    if s.len() == 0 {
        0
    } else {
        seq_sum_u64(s.drop_last()) + s.last()
    }
}

pub open spec fn seq_sum_int(s: Seq<int>) -> int
    decreases s.len(),
{
    if s.len() == 0 {
        0
    } else {
        seq_sum_int(s.drop_last()) + s.last()
    }
}

/// Clause lines still owed by the layers, from layer `l`, clause `c` on.
pub open spec fn layers_clauses_from(layers: Seq<Layer>, l: int, c: int) -> int
    decreases layers.len() - l,
{
    if l < 0 || l >= layers.len() {
        0
    } else {
        (layers[l].n_clauses - c) + layers_clauses_from(layers, l + 1, 0)
    }
}

/// Soft clause lines of objective `o` still owed by the layers.
pub open spec fn layers_soft_from(layers: Seq<Layer>, l: int, c: int, o: u8) -> int
    decreases layers.len() - l,
{
    if l < 0 || l >= layers.len() {
        0
    } else {
        (if layers[l].soft == o + 1 {
            layers[l].n_clauses - c
        } else {
            0
        }) + layers_soft_from(layers, l + 1, 0, o)
    }
}

/// Clause lines still owed by the AND gadgets from gadget `t` on: each emits
/// its long clause plus one binary clause per conjunct.
pub open spec fn arity_sum_from(arity: Seq<u32>, t: int) -> int
    decreases arity.len() - t,
{
    if t < 0 || t >= arity.len() {
        0
    } else {
        (arity[t] + 1) + arity_sum_from(arity, t + 1)
    }
}

/// Soft unit clauses still owed by the gadgets from combined index `t` on.
pub open spec fn soft_extra_from(soft: Seq<u8>, t: int) -> int
    decreases soft.len() - t,
{
    if t < 0 || t >= soft.len() {
        0
    } else {
        (if soft[t] > 0 {
            1int
        } else {
            0int
        }) + soft_extra_from(soft, t + 1)
    }
}

/// Soft draws of objective `o` still owed by the gadgets from combined index
/// `t` on.
pub open spec fn soft_count_from(soft: Seq<u8>, t: int, o: u8) -> int
    decreases soft.len() - t,
{
    if t < 0 || t >= soft.len() {
        0
    } else {
        (if soft[t] == o + 1 {
            1int
        } else {
            0int
        }) + soft_count_from(soft, t + 1, o)
    }
}

/// The total soft weight of a clause batch.
pub open spec fn batch_weight(cls: Seq<Cl>) -> int
    decreases cls.len(),
{
    if cls.len() == 0 {
        0
    } else {
        batch_weight(cls.drop_last()) + match cls.last().0 {
            Some(t) => t.1 as int,
            None => 0,
        }
    }
}

/// How many clauses of a batch carry a soft draw of objective `o`.
pub open spec fn batch_soft_count(cls: Seq<Cl>, o: u8) -> int
    decreases cls.len(),
{
    if cls.len() == 0 {
        0
    } else {
        batch_soft_count(cls.drop_last(), o) + match cls.last().0 {
            Some(t) => if t.0 == o {
                1int
            } else {
                0int
            },
            None => 0,
        }
    }
}

pub proof fn lemma_batch_soft_count_concat(a: Seq<Cl>, b: Seq<Cl>, o: u8)
    ensures
        batch_soft_count(a + b, o) == batch_soft_count(a, o) + batch_soft_count(b, o),
    decreases b.len(),
{
    if b.len() == 0 {
        assert(a + b =~= a);
    } else {
        lemma_batch_soft_count_concat(a, b.drop_last(), o);
        assert((a + b).drop_last() =~= a + b.drop_last());
        assert((a + b).last() == b.last());
    }
}

/// A batch of hard clauses carries no soft draw of any objective.
pub proof fn lemma_batch_soft_count_all_hard(cls: Seq<Cl>, o: u8)
    requires
        forall|b: int| 0 <= b < cls.len() ==> (#[trigger] cls[b].0) is None,
    ensures
        batch_soft_count(cls, o) == 0,
    decreases cls.len(),
{
    if cls.len() > 0 {
        lemma_batch_soft_count_all_hard(cls.drop_last(), o);
    }
}

pub proof fn lemma_batch_weight_concat(a: Seq<Cl>, b: Seq<Cl>)
    ensures
        batch_weight(a + b) == batch_weight(a) + batch_weight(b),
    decreases b.len(),
{
    if b.len() == 0 {
        assert(a + b =~= a);
    } else {
        lemma_batch_weight_concat(a, b.drop_last());
        assert((a + b).drop_last() =~= a + b.drop_last());
        assert((a + b).last() == b.last());
    }
}

pub proof fn lemma_seq_sum_u64_update_sub(s: Seq<u64>, o: int, d: u64)
    requires
        0 <= o < s.len(),
        d <= s[o],
    ensures
        seq_sum_u64(s.update(o, (s[o] - d) as u64)) == seq_sum_u64(s) - d,
    decreases s.len(),
{
    let s2 = s.update(o, (s[o] - d) as u64);
    if o == s.len() - 1 {
        assert(s2.drop_last() =~= s.drop_last());
        assert(s2.last() == (s[o] - d) as u64);
    } else {
        lemma_seq_sum_u64_update_sub(s.drop_last(), o, d);
        assert(s2.drop_last() =~= s.drop_last().update(o, (s[o] - d) as u64));
        assert(s2.last() == s.last());
    }
}

/// Every entry of the sum is at most the whole sum.
pub proof fn lemma_seq_sum_u64_entry(s: Seq<u64>, o: int)
    requires
        0 <= o < s.len(),
    ensures
        s[o] <= seq_sum_u64(s),
        seq_sum_u64(s) >= 0,
    decreases s.len(),
{
    if s.len() > 0 {
        if o == s.len() - 1 {
            lemma_seq_sum_u64_nonneg(s.drop_last());
        } else {
            lemma_seq_sum_u64_entry(s.drop_last(), o);
        }
    }
}

pub proof fn lemma_seq_sum_u64_nonneg(s: Seq<u64>)
    ensures
        seq_sum_u64(s) >= 0,
    decreases s.len(),
{
    if s.len() > 0 {
        lemma_seq_sum_u64_nonneg(s.drop_last());
    }
}

pub proof fn lemma_seq_sum_int_update_add(s: Seq<int>, o: int, d: int)
    requires
        0 <= o < s.len(),
    ensures
        seq_sum_int(s.update(o, s[o] + d)) == seq_sum_int(s) + d,
    decreases s.len(),
{
    let s2 = s.update(o, s[o] + d);
    if o == s.len() - 1 {
        assert(s2.drop_last() =~= s.drop_last());
        assert(s2.last() == s[o] + d);
    } else {
        lemma_seq_sum_int_update_add(s.drop_last(), o, d);
        assert(s2.drop_last() =~= s.drop_last().update(o, s[o] + d));
        assert(s2.last() == s.last());
    }
}

/// Every entry of the sum is at most the whole sum.
pub proof fn lemma_seq_sum_int_entry(s: Seq<int>, o: int)
    requires
        0 <= o < s.len(),
        forall|t: int| 0 <= t < s.len() ==> s[t] >= 0,
    ensures
        s[o] <= seq_sum_int(s),
    decreases s.len(),
{
    if o == s.len() - 1 {
        lemma_seq_sum_int_nonneg(s.drop_last());
    } else {
        lemma_seq_sum_int_entry(s.drop_last(), o);
    }
}

pub proof fn lemma_seq_sum_int_nonneg(s: Seq<int>)
    requires
        forall|t: int| 0 <= t < s.len() ==> s[t] >= 0,
    ensures
        seq_sum_int(s) >= 0,
    decreases s.len(),
{
    if s.len() > 0 {
        lemma_seq_sum_int_nonneg(s.drop_last());
    }
}

/// A batch of hard clauses carries no soft weight.
pub proof fn lemma_batch_weight_all_hard(cls: Seq<Cl>)
    requires
        forall|b: int| 0 <= b < cls.len() ==> (#[trigger] cls[b].0) is None,
    ensures
        batch_weight(cls) == 0,
    decreases cls.len(),
{
    if cls.len() > 0 {
        lemma_batch_weight_all_hard(cls.drop_last());
    }
}

pub proof fn lemma_batch_weight_nonneg(cls: Seq<Cl>)
    ensures
        batch_weight(cls) >= 0,
    decreases cls.len(),
{
    if cls.len() > 0 {
        lemma_batch_weight_nonneg(cls.drop_last());
    }
}

/// Carries the soft-budget accounting across a step that changes neither
/// the emitted counts, the buffer, nor what is still owed.
proof fn lemma_budget_carry(a: &MoGenerator, b: &MoGenerator)
    requires
        forall|o: u8| #![trigger a.soft_left_spec(o)]
            o < a.objs ==> a.emitted@.soft_counts[o as int] + batch_soft_count(a.buffer@, o)
                + a.soft_left_spec(o) == layers_soft_from(a.layers@, 0, 0, o) + soft_count_from(
                a.soft@,
                0,
                o,
            ),
        b.objs == a.objs,
        b.soft@ == a.soft@,
        b.emitted@.soft_counts == a.emitted@.soft_counts,
        b.buffer@ == a.buffer@,
        forall|o: u8| #![trigger b.soft_left_spec(o)]
            o < a.objs ==> b.soft_left_spec(o) == a.soft_left_spec(o),
        forall|o: u8| #![trigger layers_soft_from(b.layers@, 0, 0, o)]
            o < a.objs ==> layers_soft_from(b.layers@, 0, 0, o) == layers_soft_from(
                a.layers@,
                0,
                0,
                o,
            ),
    ensures
        forall|o: u8| #![trigger b.soft_left_spec(o)]
            o < b.objs ==> b.emitted@.soft_counts[o as int] + batch_soft_count(b.buffer@, o)
                + b.soft_left_spec(o) == layers_soft_from(b.layers@, 0, 0, o) + soft_count_from(
                b.soft@,
                0,
                o,
            ),
{
    assert forall|o: u8| #![trigger b.soft_left_spec(o)]
        o < b.objs implies b.emitted@.soft_counts[o as int] + batch_soft_count(b.buffer@, o)
        + b.soft_left_spec(o) == layers_soft_from(b.layers@, 0, 0, o) + soft_count_from(
        b.soft@,
        0,
        o,
    ) by {
        assert(a.emitted@.soft_counts[o as int] + batch_soft_count(a.buffer@, o)
            + a.soft_left_spec(o) == layers_soft_from(a.layers@, 0, 0, o) + soft_count_from(
            a.soft@,
            0,
            o,
        ));
    }
}

/// Generator for random multi-objective MaxSAT instances; pull lines with
/// [`MoGenerator::next`].
pub struct MoGenerator {
    pub rng: Rng,
    pub seed: Option<u64>,
    pub objs: u8,
    pub layers: Vec<Layer>,
    pub arity: Vec<u32>,
    pub soft: Vec<u8>,
    pub eqs: u32,
    pub ands: u32,
    pub xors3: u32,
    pub xors4: u32,
    pub n_soft_left: Vec<u64>,
    pub soft_left_total: u64,
    pub weight_hi: u64,
    pub weight_sum: u64,
    pub state: LineType,
    pub next_free_var: u32,
    pub buffer: Vec<Cl>,
    pub emitted: Ghost<EmitStats>,
}

impl MoGenerator {
    /// The clause count the header declares.
    pub open spec fn declared_clauses(&self) -> int {
        layers_clauses_from(self.layers@, 0, 0) + self.gadget_clauses_all()
    }

    /// The line count of the whole stream.
    pub open spec fn declared_lines(&self) -> int {
        10 + self.layers@.len() + self.declared_clauses()
    }

    pub open spec fn gadget_clauses_all(&self) -> int {
        2 * self.eqs + arity_sum_from(self.arity@, 0) + 4 * self.xors3 + 8 * self.xors4
            + soft_extra_from(self.soft@, 0)
    }

    /// Clause lines the cursor still has to produce (the buffer aside).
    pub open spec fn rem_clauses(&self) -> int {
        match self.state {
            LineType::Header(_) => self.declared_clauses(),
            LineType::LayerDesc(_) => self.declared_clauses(),
            LineType::LayerCl(l, c) => layers_clauses_from(self.layers@, l as int, c as int)
                + self.gadget_clauses_all(),
            LineType::EqCl(i) => 2 * (self.eqs - i) + arity_sum_from(self.arity@, 0) + 4
                * self.xors3 + 8 * self.xors4 + soft_extra_from(self.soft@, i as int),
            LineType::AndCl(i) => arity_sum_from(self.arity@, i as int) + 4 * self.xors3 + 8
                * self.xors4 + soft_extra_from(self.soft@, self.eqs + i),
            LineType::Xor3Cl(i) => 4 * (self.xors3 - i) + 8 * self.xors4 + soft_extra_from(
                self.soft@,
                self.eqs + self.ands + i,
            ),
            LineType::Xor4Cl(i) => 8 * (self.xors4 - i) + soft_extra_from(
                self.soft@,
                self.eqs + self.ands + self.xors3 + i,
            ),
        }
    }

    /// Comment lines the cursor still has to produce.
    pub open spec fn rem_comments(&self) -> int {
        match self.state {
            LineType::Header(id) => (10 - id) + self.layers@.len(),
            LineType::LayerDesc(i) => self.layers@.len() - i,
            _ => 0,
        }
    }

    /// Lines still to come, buffered batch clauses included.
    pub open spec fn lines_left(&self) -> int {
        self.buffer@.len() + self.rem_comments() + self.rem_clauses()
    }

    /// Clause lines still to come, buffered batch clauses included.
    pub open spec fn clauses_left(&self) -> int {
        self.buffer@.len() + self.rem_clauses()
    }

    /// Soft weight draws of objective `o` still to come.
    pub open spec fn soft_left_spec(&self, o: u8) -> int {
        match self.state {
            LineType::Header(_) => layers_soft_from(self.layers@, 0, 0, o) + soft_count_from(
                self.soft@,
                0,
                o,
            ),
            LineType::LayerDesc(_) => layers_soft_from(self.layers@, 0, 0, o) + soft_count_from(
                self.soft@,
                0,
                o,
            ),
            LineType::LayerCl(l, c) => layers_soft_from(self.layers@, l as int, c as int, o)
                + soft_count_from(self.soft@, 0, o),
            LineType::EqCl(i) => soft_count_from(self.soft@, i as int, o),
            LineType::AndCl(i) => soft_count_from(self.soft@, self.eqs + i, o),
            LineType::Xor3Cl(i) => soft_count_from(self.soft@, self.eqs + self.ands + i, o),
            LineType::Xor4Cl(i) => soft_count_from(
                self.soft@,
                self.eqs + self.ands + self.xors3 + i,
            o),
        }
    }

    /// Gadgets the cursor has passed; a soft gadget spends one fresh
    /// blocking variable.
    pub open spec fn processed_gadgets(&self) -> int {
        match self.state {
            LineType::Header(_) => 0,
            LineType::LayerDesc(_) => 0,
            LineType::LayerCl(_, _) => 0,
            LineType::EqCl(i) => i as int,
            LineType::AndCl(i) => self.eqs + i,
            LineType::Xor3Cl(i) => self.eqs + self.ands + i,
            LineType::Xor4Cl(i) => self.eqs + self.ands + self.xors3 + i,
        }
    }

    /// The structural part of the invariant: fixed after initialization.
    pub open spec fn wf_static(&self) -> bool {
        &&& 1 <= self.layers@.len() <= 255
        &&& self.layers@[0].lo == 0
        &&& forall|i: int| 0 <= i < self.layers@.len() ==> #[trigger] self.layers@[i].lo
            < self.layers@[i].hi
        &&& forall|i: int| 0 < i < self.layers@.len() ==> #[trigger] self.layers@[i].lo
            == self.layers@[i - 1].hi
        &&& forall|i: int| 0 <= i < self.layers@.len() ==> #[trigger] self.layers@[i].hi
            - self.layers@[i].lo >= 3
        &&& forall|i: int, j: int| 0 <= i <= j < self.layers@.len() ==> self.layers@[i].hi
            <= self.layers@[j].hi
        &&& forall|i: int| 0 <= i < self.layers@.len() ==> #[trigger] self.layers@[i].n_clauses
            <= 0x20000
        &&& forall|i: int| 0 <= i < self.layers@.len() ==> #[trigger] self.layers@[i].soft
            <= self.objs
        &&& self.layers@.last().hi <= 0x10_0000
        &&& self.soft@.len() == self.eqs + self.ands + self.xors3 + self.xors4
        &&& forall|t: int| 0 <= t < self.soft@.len() ==> #[trigger] self.soft@[t] <= self.objs
        &&& self.arity@.len() == self.ands
        &&& forall|t: int| 0 <= t < self.arity@.len() ==> 2 <= #[trigger] self.arity@[t] <= 20
        &&& forall|t: int| 0 <= t < self.arity@.len() ==> #[trigger] self.arity@[t] + 1
            <= self.layers@.last().hi
        &&& self.eqs <= 255 && self.ands <= 255 && self.xors3 <= 255 && self.xors4 <= 255
        &&& forall|i: int, t: int|
            0 <= i < self.layers@.len() && 0 <= t < self.layers@[i].unused@.len()
                ==> self.layers@[i].lo <= (#[trigger] self.layers@[i].unused@[t]).var
                < self.layers@[i].hi
    }

    /// The cursor is within bounds.
    pub open spec fn wf_cursor(&self) -> bool {
        match self.state {
            LineType::Header(id) => id <= 10,
            LineType::LayerDesc(i) => i <= self.layers@.len(),
            LineType::LayerCl(l, c) => l <= self.layers@.len() && (l < self.layers@.len()
                ==> c <= self.layers@[l as int].n_clauses) && (l == self.layers@.len() ==> c == 0),
            LineType::EqCl(i) => i <= self.eqs,
            LineType::AndCl(i) => i <= self.ands,
            LineType::Xor3Cl(i) => i <= self.xors3,
            LineType::Xor4Cl(i) => i <= self.xors4,
        }
    }

    /// The full invariant of a streaming generator.
    pub open spec fn wf(&self) -> bool {
        &&& self.wf_static()
        &&& self.wf_cursor()
        &&& self.n_soft_left@.len() == self.objs
        &&& self.weight_hi >= 2
        &&& self.layers@.last().hi <= self.next_free_var <= self.layers@.last().hi
            + self.processed_gadgets()
        &&& self.soft_left_total == seq_sum_u64(self.n_soft_left@)
        &&& self.weight_sum + self.soft_left_total <= 0x7fff_ffff_ffff_ffff
        &&& forall|o: u8| o < self.objs ==> self.n_soft_left@[o as int] == self.soft_left_spec(o)
        &&& self.emitted@.lines >= 0
        &&& self.emitted@.clauses >= 0
        &&& self.emitted@.clauses + self.clauses_left() == self.declared_clauses()
        &&& self.emitted@.lines + self.lines_left() == self.declared_lines()
        &&& self.emitted@.soft.len() == self.objs
        &&& forall|o: int| 0 <= o < self.emitted@.soft.len() ==> self.emitted@.soft[o] >= 0
        &&& seq_sum_int(self.emitted@.soft) + batch_weight(self.buffer@) == self.weight_sum
        &&& self.emitted@.soft_counts.len() == self.objs
        &&& forall|o: int| 0 <= o < self.emitted@.soft_counts.len() ==> self.emitted@.soft_counts[o] >= 0
        &&& forall|o: u8| #![trigger self.soft_left_spec(o)]
            o < self.objs ==> self.emitted@.soft_counts[o as int] + batch_soft_count(
                self.buffer@,
                o,
            ) + self.soft_left_spec(o) == layers_soft_from(self.layers@, 0, 0, o)
                + soft_count_from(self.soft@, 0, o)
        &&& forall|b: int|
            0 <= b < self.buffer@.len() ==> ((#[trigger] self.buffer@[b].0) matches Some(t) ==> t.0
                < self.objs && t.1 >= 1)
        &&& self.buffer@.len() != 0 ==> self.phase_rank() <= 3
    }

    /// Every per-objective sum of emitted soft weights stays within the cost
    /// ceiling.
    pub proof fn lemma_soft_sums_bounded(&self, o: int)
        requires
            self.wf(),
            0 <= o < self.emitted@.soft.len(),
        ensures
            self.emitted@.soft[o] <= 0x7fff_ffff_ffff_ffff,
    {
        lemma_seq_sum_int_entry(self.emitted@.soft, o);
        lemma_batch_weight_nonneg(self.buffer@);
    }

    /// The per-objective soft-clause budgets, as a sequence.
    pub open spec fn soft_budgets(&self) -> Seq<u64> {
        Seq::new(
            self.objs as nat,
            |o: int|
                (layers_soft_from(self.layers@, 0, 0, o as u8) + soft_count_from(
                    self.soft@,
                    0,
                    o as u8,
                )) as u64,
        )
    }

    /// The content of header comment `id`.
    pub open spec fn header_line_spec(&self, id: u8) -> Seq<char> {
        if id == 0 {
            "Generated by fazzer"@
        } else if id == 1 {
            match self.seed {
                Some(sd) => "seed "@ + dec_spec(sd as int),
                None => "seeded by entropy"@,
            }
        } else if id == 2 {
            dec_spec(self.objs as int) + " objectives"@
        } else if id == 3 {
            "weight range 1.."@ + dec_spec(self.weight_hi as int)
        } else if id == 4 {
            dec_spec(self.declared_clauses()) + " clauses"@
        } else if id == 5 {
            "["@ + dec_list_spec(self.soft_budgets()) + "] soft clauses"@
        } else if id == 6 {
            "equalitites "@ + dec_spec(self.eqs as int)
        } else if id == 7 {
            "ands "@ + dec_spec(self.ands as int)
        } else if id == 8 {
            "xors3 "@ + dec_spec(self.xors3 as int)
        } else {
            "xors4 "@ + dec_spec(self.xors4 as int)
        }
    }

    /// Writes header comment `id`: tool name, seed, objective count, weight
    /// range, clause count, soft-clause budgets, and the gadget counts.
    pub fn header_line(&self, id: u8) -> (r: String)
        requires
            self.wf_static(),
            id <= 9,
        ensures
            r@ == self.header_line_spec(id),
    {
        if id == 0 {
            proof {
                reveal_strlit("Generated by fazzer");
            }
            String::from_str("Generated by fazzer")
        } else if id == 1 {
            match self.seed {
                Some(sd) => {
                    proof {
                        reveal_strlit("seed ");
                    }
                    let mut r = String::from_str("seed ");
                    let d = u64_string(sd);
                    r.append(d.as_str());
                    proof {
                        assert(r@ =~= self.header_line_spec(id));
                    }
                    r
                },
                None => {
                    proof {
                        reveal_strlit("seeded by entropy");
                    }
                    String::from_str("seeded by entropy")
                },
            }
        } else if id == 2 {
            proof {
                reveal_strlit(" objectives");
            }
            let mut r = u64_string(self.objs as u64);
            r.append(" objectives");
            proof {
                assert(r@ =~= self.header_line_spec(id));
            }
            r
        } else if id == 3 {
            proof {
                reveal_strlit("weight range 1..");
            }
            let mut r = String::from_str("weight range 1..");
            let d = u64_string(self.weight_hi);
            r.append(d.as_str());
            proof {
                assert(r@ =~= self.header_line_spec(id));
            }
            r
        } else if id == 4 {
            proof {
                reveal_strlit(" clauses");
            }
            let mut r = u64_string(self.n_clauses() as u64);
            r.append(" clauses");
            proof {
                assert(r@ =~= self.header_line_spec(id));
            }
            r
        } else if id == 5 {
            proof {
                reveal_strlit("[");
                reveal_strlit("] soft clauses");
            }
            let mut r = String::from_str("[");
            let softs = self.n_softs();
            let lst = u64_list_string(&softs);
            r.append(lst.as_str());
            r.append("] soft clauses");
            proof {
                assert(r@ =~= self.header_line_spec(id));
            }
            r
        } else if id == 6 {
            proof {
                reveal_strlit("equalitites ");
            }
            let mut r = String::from_str("equalitites ");
            let d = u64_string(self.eqs as u64);
            r.append(d.as_str());
            proof {
                assert(r@ =~= self.header_line_spec(id));
            }
            r
        } else if id == 7 {
            proof {
                reveal_strlit("ands ");
            }
            let mut r = String::from_str("ands ");
            let d = u64_string(self.ands as u64);
            r.append(d.as_str());
            proof {
                assert(r@ =~= self.header_line_spec(id));
            }
            r
        } else if id == 8 {
            proof {
                reveal_strlit("xors3 ");
            }
            let mut r = String::from_str("xors3 ");
            let d = u64_string(self.xors3 as u64);
            r.append(d.as_str());
            proof {
                assert(r@ =~= self.header_line_spec(id));
            }
            r
        } else {
            proof {
                reveal_strlit("xors4 ");
            }
            let mut r = String::from_str("xors4 ");
            let d = u64_string(self.xors4 as u64);
            r.append(d.as_str());
            proof {
                assert(r@ =~= self.header_line_spec(id));
            }
            r
        }
    }

    /// The content of the comment describing layer `idx`.
    pub open spec fn layer_desc_spec(&self, idx: u8) -> Seq<char> {
        "c layer["@ + dec_spec(idx as int) + "] = "@ + dec_spec(
            self.layers@[idx as int].lo as int,
        ) + ".."@ + dec_spec(self.layers@[idx as int].hi as int) + " n_cl="@ + dec_spec(
            self.layers@[idx as int].n_clauses as int,
        )
    }

    /// Writes the comment describing layer `idx`: its variable range and its
    /// clause budget.
    pub fn layer_desc(&self, idx: u8) -> (r: String)
        requires
            (idx as int) < self.layers@.len(),
        ensures
            r@ == self.layer_desc_spec(idx),
    {
        proof {
            reveal_strlit("c layer[");
            reveal_strlit("] = ");
            reveal_strlit("..");
            reveal_strlit(" n_cl=");
        }
        let layer = &self.layers[idx as usize];
        let mut r = String::from_str("c layer[");
        let d0 = u64_string(idx as u64);
        r.append(d0.as_str());
        r.append("] = ");
        let d1 = u64_string(layer.lo as u64);
        r.append(d1.as_str());
        r.append("..");
        let d2 = u64_string(layer.hi as u64);
        r.append(d2.as_str());
        r.append(" n_cl=");
        let d3 = u64_string(layer.n_clauses as u64);
        r.append(d3.as_str());
        proof {
            assert(r@ =~= self.layer_desc_spec(idx));
        }
        r
    }

    /// The declared clause count: layer budgets, two clauses per equality,
    /// the long clause and one binary clause per AND conjunct, four clauses
    /// per XOR3, eight per XOR4, and one soft unit per soft gadget.
    pub fn n_clauses(&self) -> (r: u32)
        requires
            self.wf_static(),
        ensures
            r == self.declared_clauses(),
    {
        let mut n_cl: u32 = 0;
        let mut l: usize = 0;
        while l < self.layers.len()
            invariant
                self.wf_static(),
                l <= self.layers@.len(),
                n_cl == layers_clauses_from(self.layers@, 0, 0) - layers_clauses_from(
                    self.layers@,
                    l as int,
                    0,
                ),
                n_cl <= 0x20000 * l,
            decreases self.layers@.len() - l,
        {
            proof {
                lemma_layers_clauses_bound(self.layers@, l as int);
            }
            n_cl = n_cl + self.layers[l].n_clauses;
            l += 1;
        }
        proof {
            lemma_arity_sum_bound(self.arity@, 0);
            lemma_soft_extra_bound(self.soft@, 0);
        }
        let mut t: usize = 0;
        while t < self.arity.len()
            invariant
                self.wf_static(),
                t <= self.arity@.len(),
                n_cl == layers_clauses_from(self.layers@, 0, 0) + arity_sum_from(self.arity@, 0)
                    - arity_sum_from(self.arity@, t as int),
                n_cl <= 0x20000 * 255 + 21 * t,
            decreases self.arity@.len() - t,
        {
            proof {
                lemma_arity_sum_bound(self.arity@, t as int);
            }
            n_cl = n_cl + self.arity[t] + 1;
            t += 1;
        }
        let mut t: usize = 0;
        while t < self.soft.len()
            invariant
                self.wf_static(),
                t <= self.soft@.len(),
                n_cl == layers_clauses_from(self.layers@, 0, 0) + arity_sum_from(self.arity@, 0)
                    + soft_extra_from(self.soft@, 0) - soft_extra_from(self.soft@, t as int),
                n_cl <= 0x20000 * 255 + 21 * 255 + t,
            decreases self.soft@.len() - t,
        {
            proof {
                lemma_soft_extra_bound(self.soft@, t as int);
            }
            if self.soft[t] > 0 {
                n_cl = n_cl + 1;
            }
            t += 1;
        }
        n_cl = n_cl + 2 * self.eqs;
        n_cl = n_cl + 4 * self.xors3;
        n_cl = n_cl + 8 * self.xors4;
        n_cl
    }

    /// The per-objective soft-clause budgets: the clause budget of each soft
    /// layer plus one unit clause per soft gadget.
    pub fn n_softs(&self) -> (r: Vec<u64>)
        requires
            self.wf_static(),
        ensures
            r@.len() == self.objs,
            forall|o: u8|
                o < self.objs ==> r@[o as int] == layers_soft_from(self.layers@, 0, 0, o)
                    + soft_count_from(self.soft@, 0, o),
            forall|o: int| 0 <= o < r@.len() ==> #[trigger] r@[o] <= 33424380,
            r@ == self.soft_budgets(),
    {
        let mut cnt: Vec<u64> = Vec::new();
        let mut o: u8 = 0;
        while o < self.objs
            invariant
                self.wf_static(),
                o <= self.objs,
                cnt@.len() == o,
                forall|o2: u8|
                    o2 < o ==> cnt@[o2 as int] == layers_soft_from(self.layers@, 0, 0, o2)
                        + soft_count_from(self.soft@, 0, o2),
                forall|o2: int| 0 <= o2 < cnt@.len() ==> #[trigger] cnt@[o2] <= 33424380,
            decreases self.objs - o,
        {
            let mut c: u64 = 0;
            let mut l: usize = 0;
            while l < self.layers.len()
                invariant
                    self.wf_static(),
                    o < self.objs,
                    l <= self.layers@.len(),
                    c == layers_soft_from(self.layers@, 0, 0, o) - layers_soft_from(
                        self.layers@,
                        l as int,
                        0,
                        o,
                    ),
                    c <= 0x20000 * l,
                decreases self.layers@.len() - l,
            {
                proof {
                    lemma_layers_soft_bound(self.layers@, l as int, o);
                }
                if self.layers[l].soft == o + 1 {
                    c = c + self.layers[l].n_clauses as u64;
                }
                l += 1;
            }
            let mut t: usize = 0;
            while t < self.soft.len()
                invariant
                    self.wf_static(),
                    o < self.objs,
                    t <= self.soft@.len(),
                    c == layers_soft_from(self.layers@, 0, 0, o) + soft_count_from(
                        self.soft@,
                        0,
                        o,
                    ) - soft_count_from(self.soft@, t as int, o),
                    c <= 0x20000 * 255 + t,
                decreases self.soft@.len() - t,
            {
                proof {
                    lemma_soft_count_bound(self.soft@, t as int, o);
                }
                if self.soft[t] == o + 1 {
                    c = c + 1;
                }
                t += 1;
            }
            cnt.push(c);
            o += 1;
        }
        proof {
            assert(cnt@ =~= self.soft_budgets());
        }
        cnt
    }

    /// Draws a weight for objective `o`, clamped so that the total soft
    /// weight plus one unit for every still-to-come soft clause stays within
    /// the cost ceiling; once the clamp engages, the weight range collapses
    /// to unit weights. On a seeded source the drawn weight is exactly the
    /// clamped range draw, so the whole call is a function of the state.
    pub fn weight(&mut self, oidx: u8) -> (w: u64)
        requires
            old(self).weight_hi >= 2,
            (oidx as int) < old(self).n_soft_left@.len(),
            old(self).n_soft_left@[oidx as int] >= 1,
            old(self).soft_left_total == seq_sum_u64(old(self).n_soft_left@),
            old(self).weight_sum + old(self).soft_left_total <= 0x7fff_ffff_ffff_ffff,
        ensures
            1 <= w <= old(self).weight_hi - 1,
            final(self).weight_hi == old(self).weight_hi || final(self).weight_hi == 2,
            final(self).rng.model().determined == old(self).rng.model().determined,
            final(self).rng.model().seed == old(self).rng.model().seed,
            final(self).rng.model().history == old(self).rng.model().history.push(
                (1u64, (old(self).weight_hi - 1) as u64),
            ),
            old(self).rng.model().determined ==> ({
                let draw = chacha_range(
                    old(self).rng.model().seed,
                    old(self).rng.model().history,
                    1,
                    (old(self).weight_hi - 1) as u64,
                );
                let room = 0x7fff_ffff_ffff_ffff - old(self).weight_sum - (old(
                    self,
                ).soft_left_total - 1);
                w as int == clamped_weight(draw, room) && final(self).weight_hi == (if draw as int
                    > room {
                    2u64
                } else {
                    old(self).weight_hi
                })
            }),
            final(self).n_soft_left@ == old(self).n_soft_left@.update(
                oidx as int,
                (old(self).n_soft_left@[oidx as int] - 1) as u64,
            ),
            final(self).soft_left_total == old(self).soft_left_total - 1,
            final(self).weight_sum == old(self).weight_sum + w,
            final(self).soft_left_total == seq_sum_u64(final(self).n_soft_left@),
            final(self).weight_sum + final(self).soft_left_total <= 0x7fff_ffff_ffff_ffff,
            final(self).weight_hi >= 2,
            *final(self) == (MoGenerator {
                rng: final(self).rng,
                n_soft_left: final(self).n_soft_left,
                soft_left_total: final(self).soft_left_total,
                weight_hi: final(self).weight_hi,
                weight_sum: final(self).weight_sum,
                ..*old(self)
            }),
    {
        let cap: u64 = 0x7fff_ffff_ffff_ffff;
        let nl = self.n_soft_left[oidx as usize];
        proof {
            lemma_seq_sum_u64_entry(self.n_soft_left@, oidx as int);
            lemma_seq_sum_u64_update_sub(self.n_soft_left@, oidx as int, 1);
        }
        self.n_soft_left[oidx as usize] = nl - 1;
        self.soft_left_total = self.soft_left_total - 1;
        let mut w = self.rng.gen_range_u64(1, self.weight_hi - 1);
        if w > cap - self.weight_sum - self.soft_left_total {
            // Maxed out: take what room is left and emit unit weights from
            // now on.
            w = cap - self.weight_sum - self.soft_left_total;
            self.weight_hi = 2;
        }
        self.weight_sum = self.weight_sum + w;
        w
    }

    /// Draws one clause of layer `lidx`: a target length of three, extended
    /// at two-in-three odds up to twenty literals or the layer's variable
    /// bound; a weight drawn on the layer's objective if the layer is soft;
    /// and for each slot a literal from a layer at or below the home layer,
    /// preferring that layer's pool of unused literals, never repeating a
    /// variable within the clause.
    #[verifier::rlimit(60)]
    pub fn layer_clause(&mut self, lidx: u8, cidx: u32) -> (r: Cl)
        requires
            old(self).wf_static(),
            (lidx as int) < old(self).layers@.len(),
            cidx < old(self).layers@[lidx as int].n_clauses,
            old(self).n_soft_left@.len() == old(self).objs,
            old(self).layers@[lidx as int].soft > 0 ==> old(self).n_soft_left@[old(self).layers@[lidx as int].soft - 1] >= 1,
            old(self).soft_left_total == seq_sum_u64(old(self).n_soft_left@),
            old(self).weight_sum + old(self).soft_left_total <= 0x7fff_ffff_ffff_ffff,
            old(self).weight_hi >= 2,
        ensures
            final(self).wf_static(),
            layers_same_shape(old(self).layers@, final(self).layers@),
            *final(self) == (MoGenerator {
                rng: final(self).rng,
                layers: final(self).layers,
                n_soft_left: final(self).n_soft_left,
                soft_left_total: final(self).soft_left_total,
                weight_hi: final(self).weight_hi,
                weight_sum: final(self).weight_sum,
                ..*old(self)
            }),
            no_dup_vars(r.1.lits@),
            3 <= r.1.lits@.len() <= 20,
            pools_shrunk(old(self).layers@, final(self).layers@),
            forall|t: int|
                0 <= t < r.1.lits@.len() ==> (#[trigger] r.1.lits@[t]).var < old(self).layers@[lidx as int].hi,
            old(self).layers@[lidx as int].soft == 0 ==> (r.0 is None && final(self).n_soft_left@
                == old(self).n_soft_left@ && final(self).soft_left_total == old(self).soft_left_total && final(self).weight_sum == old(self).weight_sum && final(self).weight_hi == old(self).weight_hi),
            old(self).layers@[lidx as int].soft > 0 ==> (r.0 matches Some(t) && t.0 == old(self).layers@[lidx as int].soft - 1 && t.1 >= 1 && final(self).n_soft_left@ == old(self).n_soft_left@.update(
                old(self).layers@[lidx as int].soft - 1,
                (old(self).n_soft_left@[old(self).layers@[lidx as int].soft - 1] - 1) as u64,
            ) && final(self).soft_left_total == old(self).soft_left_total - 1 && final(self).weight_sum == old(self).weight_sum + t.1),
            final(self).soft_left_total == seq_sum_u64(final(self).n_soft_left@),
            final(self).weight_sum + final(self).soft_left_total <= 0x7fff_ffff_ffff_ffff,
            final(self).weight_hi >= 2,
    {
        let ghost start = *old(self);
        let hi_home = self.layers[lidx as usize].hi;
        // Target length.
        let mut len: u32 = 3;
        let mut go = true;
        while go && len < 20 && len < hi_home
            invariant
                3 <= len <= 20,
                len <= hi_home,
                *self == (MoGenerator { rng: self.rng, ..start }),
            decreases
                (if go {
                    1int
                } else {
                    0int
                }),
                20 - len,
        {
            if self.rng.gen_bool(2, 3) {
                len += 1;
            } else {
                go = false;
            }
        }
        // Weight, on a soft layer.
        let sf = self.layers[lidx as usize].soft;
        let weight: Option<(u8, u64)> = if sf > 0 {
            let w = self.weight(sf - 1);
            Some((sf - 1, w))
        } else {
            None
        };
        let ghost mid = *self;
        // Literal slots.
        let mut cl = Clause::new();
        let mut idx: u32 = 0;
        while idx < len
            invariant
                self.wf_static(),
                (lidx as int) < self.layers@.len(),
                idx <= len,
                3 <= len <= 20,
                len <= hi_home,
                hi_home == self.layers@[lidx as int].hi,
                cl.lits@.len() == idx,
                no_dup_vars(cl.lits@),
                forall|t: int|
                    0 <= t < cl.lits@.len() ==> (#[trigger] cl.lits@[t]).var < hi_home,
                layers_same_shape(mid.layers@, self.layers@),
                pools_shrunk(mid.layers@, self.layers@),
                *self == (MoGenerator { rng: self.rng, layers: self.layers, ..mid }),
            decreases len - idx,
        {
            // Walk down from the home layer at even odds.
            let mut l: u8 = lidx;
            let mut walking = true;
            while l > 0 && walking
                invariant
                    l <= lidx,
                    *self == (MoGenerator { rng: self.rng, layers: self.layers, ..mid }),
                    self.wf_static(),
                    (lidx as int) < self.layers@.len(),
                    hi_home == self.layers@[lidx as int].hi,
                    layers_same_shape(mid.layers@, self.layers@),
                    pools_shrunk(mid.layers@, self.layers@),
                decreases l, (if walking {
                    1int
                } else {
                    0int
                }),
            {
                if self.rng.gen_bool(1, 2) {
                    l -= 1;
                } else {
                    walking = false;
                }
            }
            // Up to eight attempts: pool first, then a random draw.
            let mut chosen: Option<Lit> = None;
            let mut tries: u32 = 0;
            while tries < 8 && chosen.is_none()
                invariant
                    self.wf_static(),
                    (lidx as int) < self.layers@.len(),
                    (l as int) < self.layers@.len(),
                    l <= lidx,
                    hi_home == self.layers@[lidx as int].hi,
                    layers_same_shape(mid.layers@, self.layers@),
                    pools_shrunk(mid.layers@, self.layers@),
                    *self == (MoGenerator { rng: self.rng, layers: self.layers, ..mid }),
                    chosen matches Some(lit) ==> lit.var < hi_home && !var_used(cl.lits@, lit.var),
                decreases 8 - tries,
            {
                tries += 1;
                let pool_len = self.layers[l as usize].unused.len();
                let lit = if pool_len > 0 {
                    let j = self.rng.gen_range_usize(0, pool_len - 1);
                    let ghost layers0 = self.layers@;
                    let layer = &mut self.layers[l as usize];
                    let lit = layer.unused.swap_remove(j);
                    proof {
                        assert(layers_same_shape(layers0, self.layers@));
                        assert(pools_shrunk(layers0, self.layers@)) by {
                            assert forall|i: int, t: int|
                                0 <= i < layers0.len() && 0 <= t
                                    < self.layers@[i].unused@.len() implies layers0[i].unused@.contains(
                                #[trigger] self.layers@[i].unused@[t],
                            ) by {
                                if i == l {
                                    let before = layers0[i].unused@;
                                    let after = self.layers@[i].unused@;
                                    assert(after == before.update(
                                        j as int,
                                        before.last(),
                                    ).drop_last());
                                    if t == j {
                                        assert(after[t] == before[before.len() - 1]);
                                    } else {
                                        assert(after[t] == before[t]);
                                    }
                                }
                            }
                        }
                        lemma_pools_shrunk_trans(mid.layers@, layers0, self.layers@);
                        assert forall|i: int, t: int|
                            0 <= i < self.layers@.len() && 0 <= t
                                < self.layers@[i].unused@.len() implies self.layers@[i].lo <= (
                        #[trigger] self.layers@[i].unused@[t]).var < self.layers@[i].hi by {
                            if i == l {
                                assert(self.layers@[i].unused@[t]
                                    == layers0[i].unused@.update(
                                    j as int,
                                    layers0[i].unused@.last(),
                                ).drop_last()[t]);
                            }
                        }
                    }
                    lit
                } else {
                    let lo = self.layers[l as usize].lo;
                    let hi = self.layers[l as usize].hi;
                    let var = self.rng.gen_range_u32(lo, hi - 1);
                    let neg = self.rng.gen_bool(1, 2);
                    Lit::new(var, neg)
                };
                proof {
                    assert(self.layers@[l as int].hi <= self.layers@[lidx as int].hi);
                }
                if !var_in_clause(&cl, lit.var) {
                    chosen = Some(lit);
                }
            }
            let lit = match chosen {
                Some(lit) => lit,
                None => {
                    // Fall back on the smallest unused variable; one exists
                    // because the clause holds fewer variables than the home
                    // layer bounds.
                    let v = fresh_var_below(&cl, hi_home);
                    Lit::new(v, false)
                },
            };
            cl.add(lit);
            idx += 1;
        }
        (weight, cl)
    }

    /// Draws a variable uniformly: a layer at uniform, then a variable of
    /// its range. On a seeded source the result is exactly the modelled
    /// whole-range draw.
    fn random_var(&mut self) -> (v: u32)
        requires
            old(self).wf_static(),
        ensures
            v < old(self).layers@.last().hi,
            *final(self) == (MoGenerator { rng: final(self).rng, ..*old(self) }),
            final(self).rng.model().determined == old(self).rng.model().determined,
            final(self).rng.model().seed == old(self).rng.model().seed,
            old(self).rng.model().determined ==> (v as u64 == var_draw(
                old(self).rng.model().seed,
                old(self).rng.model().history,
                old(self).layers@,
            ) && final(self).rng.model().history == var_draw_hist(
                old(self).rng.model().seed,
                old(self).rng.model().history,
                old(self).layers@,
            )),
    {
        let li = self.rng.gen_range_usize(0, self.layers.len() - 1);
        let lo = self.layers[li].lo;
        let hi = self.layers[li].hi;
        let v = self.rng.gen_range_u32(lo, hi - 1);
        proof {
            assert(self.layers@[li as int].hi <= self.layers@.last().hi);
        }
        v
    }

    /// Draws a literal over the whole variable range: a layer at uniform, a
    /// variable of its range, and a polarity at even odds. On a seeded
    /// source the drawn literal is exactly the modelled draw.
    fn random_lit(&mut self) -> (r: Lit)
        requires
            old(self).wf_static(),
        ensures
            r.var < old(self).layers@.last().hi,
            *final(self) == (MoGenerator { rng: final(self).rng, ..*old(self) }),
            final(self).rng.model().determined == old(self).rng.model().determined,
            final(self).rng.model().seed == old(self).rng.model().seed,
            old(self).rng.model().determined ==> ({
                let seed = old(self).rng.model().seed;
                let h = old(self).rng.model().history;
                let h1 = var_draw_hist(seed, h, old(self).layers@);
                r.var as u64 == var_draw(seed, h, old(self).layers@) && r.neg == (chacha_range(
                    seed,
                    h1,
                    0,
                    1,
                ) < 1) && final(self).rng.model().history == h1.push((0u64, 1u64))
            }),
    {
        let v = self.random_var();
        let neg = self.rng.gen_bool(1, 2);
        Lit::new(v, neg)
    }

    /// The clauses of one equality gadget `x = y`: two distinct variables
    /// with uniform polarities; hard, the two implications; soft, the two
    /// implications guarded by a fresh blocking literal plus the soft unit
    /// clause asserting the blocker's negation. On a seeded source whose
    /// first two modelled variable draws differ, the chosen variables and
    /// polarities are exactly those draws.
    #[verifier::rlimit(60)]
    pub fn eq_clauses(&mut self, idx: u32) -> (cls: Vec<Cl>)
        requires
            old(self).wf_static(),
            idx < old(self).eqs,
            old(self).n_soft_left@.len() == old(self).objs,
            old(self).soft@[idx as int] > 0 ==> old(self).n_soft_left@[old(self).soft@[idx as int]
                - 1] >= 1,
            old(self).soft_left_total == seq_sum_u64(old(self).n_soft_left@),
            old(self).weight_sum + old(self).soft_left_total <= 0x7fff_ffff_ffff_ffff,
            old(self).weight_hi >= 2,
            old(self).next_free_var >= old(self).layers@.last().hi,
            old(self).next_free_var < 0x7fff_ffff,
        ensures
            final(self).wf_static(),
            *final(self) == (MoGenerator {
                rng: final(self).rng,
                n_soft_left: final(self).n_soft_left,
                soft_left_total: final(self).soft_left_total,
                weight_hi: final(self).weight_hi,
                weight_sum: final(self).weight_sum,
                next_free_var: final(self).next_free_var,
                ..*old(self)
            }),
            forall|b: int| 0 <= b < cls@.len() ==> no_dup_vars((#[trigger] cls@[b]).1.lits@),
            batch_weight(cls@) == final(self).weight_sum - old(self).weight_sum,
            old(self).soft@[idx as int] == 0 ==> (cls@.len() == 2 && cls@[0].0 is None
                && cls@[1].0 is None && final(self).n_soft_left@ == old(self).n_soft_left@
                && final(self).soft_left_total == old(self).soft_left_total && final(self).weight_sum == old(self).weight_sum && final(self).weight_hi == old(self).weight_hi
                && final(self).next_free_var == old(self).next_free_var),
            old(self).soft@[idx as int] > 0 ==> (cls@.len() == 3 && cls@[0].0 is None && cls@[1].0
                is None && (cls@[2].0 matches Some(t) && t.0 == old(self).soft@[idx as int] - 1
                && t.1 >= 1 && final(self).weight_sum == old(self).weight_sum + t.1) && final(self).n_soft_left@ == old(self).n_soft_left@.update(
                old(self).soft@[idx as int] - 1,
                (old(self).n_soft_left@[old(self).soft@[idx as int] - 1] - 1) as u64,
            ) && final(self).soft_left_total == old(self).soft_left_total - 1 && final(self).next_free_var == old(self).next_free_var + 1),
            final(self).soft_left_total == seq_sum_u64(final(self).n_soft_left@),
            final(self).weight_sum + final(self).soft_left_total <= 0x7fff_ffff_ffff_ffff,
            final(self).weight_hi >= 2,
            ({
                let base: int = if old(self).soft@[idx as int] == 0 {
                    0
                } else {
                    1
                };
                let l1 = cls@[0].1.lits@[base];
                let l2 = cls@[0].1.lits@[base + 1];
                &&& cls@[0].1.lits@.len() == base + 2
                &&& l1.var != l2.var
                &&& l1.var < old(self).layers@.last().hi
                &&& l2.var < old(self).layers@.last().hi
                &&& if old(self).soft@[idx as int] == 0 {
                    cls@[1].1.lits@ == seq![lit_neg(l1), lit_neg(l2)]
                } else {
                    let b = Lit { var: old(self).next_free_var, neg: false };
                    cls@[0].1.lits@[0] == b && cls@[1].1.lits@ == seq![
                        b,
                        lit_neg(l1),
                        lit_neg(l2),
                    ] && cls@[2].1.lits@ == seq![lit_neg(b)]
                }
            }),
            old(self).rng.model().determined ==> ({
                let seed = old(self).rng.model().seed;
                let h = old(self).rng.model().history;
                let lay = old(self).layers@;
                let va = var_draw(seed, h, lay);
                let h1 = var_draw_hist(seed, h, lay);
                let vb = var_draw(seed, h1, lay);
                let h2 = var_draw_hist(seed, h1, lay);
                let base: int = if old(self).soft@[idx as int] == 0 {
                    0int
                } else {
                    1int
                };
                va != vb ==> (cls@[0].1.lits@[base].var as u64 == va && cls@[0].1.lits@[base
                    + 1].var as u64 == vb && cls@[0].1.lits@[base].neg == (chacha_range(
                    seed,
                    h2,
                    0,
                    1,
                ) < 1) && cls@[0].1.lits@[base + 1].neg == (chacha_range(
                    seed,
                    h2.push((0u64, 1u64)),
                    0,
                    1,
                ) < 1))
            }),
    {
        let ghost start = *old(self);
        let ghost det = start.rng.model().determined;
        let ghost seed = start.rng.model().seed;
        let ghost h = start.rng.model().history;
        let ghost va = var_draw(seed, h, start.layers@);
        let ghost h1 = var_draw_hist(seed, h, start.layers@);
        let ghost vb = var_draw(seed, h1, start.layers@);
        let ghost h2 = var_draw_hist(seed, h1, start.layers@);
        let mut v1 = self.random_var();
        let mut v2 = self.random_var();
        let mut tries: u32 = 0;
        while v1 == v2 && tries < 16
            invariant
                self.wf_static(),
                v1 < start.layers@.last().hi,
                v2 < start.layers@.last().hi,
                *self == (MoGenerator { rng: self.rng, ..start }),
                det == start.rng.model().determined,
                det && va != vb ==> (v1 as u64 == va && v2 as u64 == vb
                    && self.rng.model().determined && self.rng.model().seed == seed
                    && self.rng.model().history == h2),
            decreases 16 - tries,
        {
            tries += 1;
            v1 = self.random_var();
            v2 = self.random_var();
        }
        if v1 == v2 {
            // Two distinct variables always exist: the first layer holds at
            // least three.
            v1 = 0;
            v2 = 1;
            proof {
                assert(start.layers@[0].hi <= start.layers@.last().hi);
            }
        }
        let neg1 = self.rng.gen_bool(1, 2);
        let neg2 = self.rng.gen_bool(1, 2);
        let lit1 = Lit::new(v1, neg1);
        let lit2 = Lit::new(v2, neg2);
        let sidx = idx as usize;
        let mut cls: Vec<Cl> = Vec::new();
        if self.soft[sidx] > 0 {
            let o = self.soft[sidx] - 1;
            let blit = Lit::new(self.next_free_var, false);
            self.next_free_var = self.next_free_var + 1;
            let w = self.weight(o);
            let nb = blit.negate();
            cls.push((None, clause3(blit, lit1, lit2)));
            cls.push((None, clause3(blit, lit1.negate(), lit2.negate())));
            cls.push((Some((o, w)), clause1(nb)));
            proof {
                assert(blit.var >= start.layers@.last().hi);
                assert(no_dup_vars(cls@[0].1.lits@));
                assert(no_dup_vars(cls@[1].1.lits@));
                assert(no_dup_vars(cls@[2].1.lits@));
                assert forall|b: int| 0 <= b < cls@.len() implies no_dup_vars(
                    (#[trigger] cls@[b]).1.lits@,
                ) by {
                    assert(b == 0 || b == 1 || b == 2);
                }
                assert(batch_weight(cls@) == w) by {
                    let s3 = cls@;
                    assert(s3.last() == s3[2]);
                    assert(s3.drop_last().last() == s3[1]);
                    assert(s3.drop_last().drop_last() =~= seq![s3[0]]);
                    assert(seq![s3[0]].last() == s3[0]);
                    assert(seq![s3[0]].drop_last() =~= Seq::<Cl>::empty());
                    assert(batch_weight(Seq::<Cl>::empty()) == 0);
                    assert(batch_weight(seq![s3[0]]) == 0);
                    assert(batch_weight(s3.drop_last()) == 0);
                }
                assert(cls@[0].1.lits@[1] == lit1 && cls@[0].1.lits@[2] == lit2);
                assert(cls@[1].1.lits@ =~= seq![blit, lit_neg(lit1), lit_neg(lit2)]);
                assert(cls@[2].1.lits@ =~= seq![lit_neg(blit)]);
            }
        } else {
            cls.push((None, clause2(lit1, lit2)));
            cls.push((None, clause2(lit1.negate(), lit2.negate())));
            proof {
                assert(no_dup_vars(cls@[0].1.lits@));
                assert(no_dup_vars(cls@[1].1.lits@));
                assert forall|b: int| 0 <= b < cls@.len() implies no_dup_vars(
                    (#[trigger] cls@[b]).1.lits@,
                ) by {
                    assert(b == 0 || b == 1);
                }
                assert(batch_weight(cls@) == 0) by {
                    let s2 = cls@;
                    assert(s2.last() == s2[1]);
                    assert(s2.drop_last() =~= seq![s2[0]]);
                    assert(seq![s2[0]].last() == s2[0]);
                    assert(seq![s2[0]].drop_last() =~= Seq::<Cl>::empty());
                    assert(batch_weight(Seq::<Cl>::empty()) == 0);
                    assert(batch_weight(seq![s2[0]]) == 0);
                }
                    assert(cls@[0].1.lits@[0] == lit1 && cls@[0].1.lits@[1] == lit2);
                assert(cls@[1].1.lits@ =~= seq![lit_neg(lit1), lit_neg(lit2)]);
            }
        }
        cls
    }

    /// The clauses of one AND gadget `lhs = rhs_1 & .. & rhs_k`: the long
    /// clause of the left-hand side and the distinct right-hand sides, and
    /// one binary clause per conjunct; soft, the long clause additionally
    /// carries a fresh blocking literal and the soft unit clause asserts the
    /// blocker's negation. On a seeded source the left-hand literal is
    /// exactly the first modelled draw.
    #[verifier::rlimit(60)]
    pub fn and_clauses(&mut self, idx: u32) -> (cls: Vec<Cl>)
        requires
            old(self).wf_static(),
            idx < old(self).ands,
            old(self).n_soft_left@.len() == old(self).objs,
            old(self).soft@[old(self).eqs + idx] > 0 ==> old(self).n_soft_left@[old(self).soft@[old(self).eqs + idx] - 1] >= 1,
            old(self).soft_left_total == seq_sum_u64(old(self).n_soft_left@),
            old(self).weight_sum + old(self).soft_left_total <= 0x7fff_ffff_ffff_ffff,
            old(self).weight_hi >= 2,
            old(self).next_free_var >= old(self).layers@.last().hi,
            old(self).next_free_var < 0x7fff_ffff,
        ensures
            final(self).wf_static(),
            *final(self) == (MoGenerator {
                rng: final(self).rng,
                n_soft_left: final(self).n_soft_left,
                soft_left_total: final(self).soft_left_total,
                weight_hi: final(self).weight_hi,
                weight_sum: final(self).weight_sum,
                next_free_var: final(self).next_free_var,
                ..*old(self)
            }),
            forall|b: int| 0 <= b < cls@.len() ==> no_dup_vars((#[trigger] cls@[b]).1.lits@),
            batch_weight(cls@) == final(self).weight_sum - old(self).weight_sum,
            ({
                let k = old(self).arity@[idx as int] as int;
                let lhs = cls@[0].1.lits@[0];
                &&& (forall|u: int|
                    1 <= u <= k ==> (#[trigger] cls@[u]).1.lits@ == seq![
                        lit_neg(lhs),
                        lit_neg(cls@[0].1.lits@[u]),
                    ] && cls@[u].0 is None)
                &&& cls@[0].0 is None
                &&& if old(self).soft@[old(self).eqs + idx] == 0 {
                    cls@.len() == k + 1 && cls@[0].1.lits@.len() == k + 1 && final(self).n_soft_left@ == old(self).n_soft_left@ && final(self).soft_left_total == old(self).soft_left_total && final(self).weight_sum == old(self).weight_sum && final(self).weight_hi == old(self).weight_hi && final(self).next_free_var == old(self).next_free_var
                } else {
                    let b = Lit { var: old(self).next_free_var, neg: false };
                    cls@.len() == k + 2 && cls@[0].1.lits@.len() == k + 2 && cls@[0].1.lits@[k + 1]
                        == b && (cls@[k + 1].0 matches Some(t) && t.0 == old(self).soft@[old(self).eqs + idx] - 1 && t.1 >= 1 && final(self).weight_sum == old(self).weight_sum
                        + t.1) && cls@[k + 1].1.lits@ == seq![lit_neg(b)] && final(self).n_soft_left@ == old(self).n_soft_left@.update(
                        old(self).soft@[old(self).eqs + idx] - 1,
                        (old(self).n_soft_left@[old(self).soft@[old(self).eqs + idx] - 1]
                            - 1) as u64,
                    ) && final(self).soft_left_total == old(self).soft_left_total - 1 && final(self).next_free_var == old(self).next_free_var + 1
                }
            }),
            final(self).soft_left_total == seq_sum_u64(final(self).n_soft_left@),
            final(self).weight_sum + final(self).soft_left_total <= 0x7fff_ffff_ffff_ffff,
            final(self).weight_hi >= 2,
            old(self).rng.model().determined ==> (cls@[0].1.lits@[0].var as u64 == lit_draw(
                old(self).rng.model().seed,
                old(self).rng.model().history,
                old(self).layers@,
            ).0 && cls@[0].1.lits@[0].neg == lit_draw(
                old(self).rng.model().seed,
                old(self).rng.model().history,
                old(self).layers@,
            ).1),
    {
        let ghost start = *old(self);
        let k = self.arity[idx as usize];
        let total_hi = self.layers[self.layers.len() - 1].hi;
        let v0 = self.random_var();
        let neg0 = self.rng.gen_bool(1, 2);
        let lhs = Lit::new(v0, neg0);
        let mut cl = Clause::new();
        cl.add(lhs);
        let mut t: u32 = 0;
        while t < k
            invariant
                self.wf_static(),
                *self == (MoGenerator { rng: self.rng, ..start }),
                t <= k,
                k == start.arity@[idx as int],
                2 <= k <= 20,
                k + 1 <= total_hi,
                total_hi == start.layers@.last().hi,
                cl.lits@.len() == t + 1,
                no_dup_vars(cl.lits@),
                forall|u: int| 0 <= u < cl.lits@.len() ==> (#[trigger] cl.lits@[u]).var < total_hi,
                cl.lits@[0] == lhs,
            decreases k - t,
        {
            let mut chosen: Option<Lit> = None;
            let mut tries: u32 = 0;
            while tries < 8 && chosen.is_none()
                invariant
                    self.wf_static(),
                    *self == (MoGenerator { rng: self.rng, ..start }),
                    total_hi == start.layers@.last().hi,
                    chosen matches Some(lit) ==> lit.var < total_hi && !var_used(
                        cl.lits@,
                        lit.var,
                    ),
                decreases 8 - tries,
            {
                tries += 1;
                let lit = self.random_lit();
                if !var_in_clause(&cl, lit.var) {
                    chosen = Some(lit);
                }
            }
            let lit = match chosen {
                Some(l) => l,
                None => {
                    let v = fresh_var_below(&cl, total_hi);
                    Lit::new(v, false)
                },
            };
            cl.add(lit);
            t += 1;
        }
        let sidx = (self.eqs + idx) as usize;
        let mut cls: Vec<Cl> = Vec::new();
        if self.soft[sidx] > 0 {
            let o = self.soft[sidx] - 1;
            let blit = Lit::new(self.next_free_var, false);
            self.next_free_var = self.next_free_var + 1;
            let w = self.weight(o);
            let mut long = clause_copy(&cl);
            long.add(blit);
            proof {
                assert(no_dup_vars(long.lits@)) by {
                    assert(forall|u: int|
                        0 <= u < cl.lits@.len() ==> (#[trigger] long.lits@[u]) == cl.lits@[u]);
                    assert(long.lits@.last() == blit);
                }
            }
            cls.push((None, long));
            let ghost head = cls@;
            let mut t: usize = 1;
            while t < cl.lits.len()
                invariant
                    1 <= t <= cl.lits@.len(),
                    cl.lits@.len() == k + 2 - 1,
                    2 <= k <= 20,
                    cl.lits@[0] == lhs,
                    no_dup_vars(cl.lits@),
                    cls@.len() == t,
                    cls@[0] == head[0],
                    head.len() == 1,
                    cls@[0].1.lits@ == cl.lits@.push(blit),
                    forall|u: int|
                        1 <= u < t ==> (#[trigger] cls@[u]).1.lits@ == seq![
                            lit_neg(lhs),
                            lit_neg(cl.lits@[u]),
                        ] && cls@[u].0 is None,
                decreases cl.lits@.len() - t,
            {
                cls.push((None, clause2(lhs.negate(), cl.lits[t].negate())));
                t += 1;
            }
            cls.push((Some((o, w)), clause1(blit.negate())));
            proof {
                let kk = k as int;
                assert(cls@.len() == kk + 2);
                assert forall|b: int| 0 <= b < cls@.len() implies no_dup_vars(
                    (#[trigger] cls@[b]).1.lits@,
                ) by {
                    if 1 <= b <= kk {
                        assert(cls@[b].1.lits@ == seq![lit_neg(lhs), lit_neg(cl.lits@[b])]);
                        assert(cl.lits@[0].var != cl.lits@[b].var);
                    }
                }
                assert(batch_weight(cls@) == w) by {
                    assert(forall|b: int|
                        0 <= b < cls@.drop_last().len() ==> (#[trigger] cls@.drop_last()[b].0)
                            is None);
                    lemma_batch_weight_all_hard(cls@.drop_last());
                    assert(cls@.last() == cls@[kk + 1]);
                }
                assert forall|u: int| 1 <= u <= kk implies (#[trigger] cls@[u]).1.lits@ == seq![
                    lit_neg(cls@[0].1.lits@[0]),
                    lit_neg(cls@[0].1.lits@[u]),
                ] && cls@[u].0 is None by {
                    assert(cls@[0].1.lits@[u] == cl.lits@[u]);
                    assert(cls@[0].1.lits@[0] == lhs);
                }
                assert(cls@[0].1.lits@[kk + 1] == blit);
            }
        } else {
            let mut long = clause_copy(&cl);
            cls.push((None, long));
            let ghost head = cls@;
            let mut t: usize = 1;
            while t < cl.lits.len()
                invariant
                    1 <= t <= cl.lits@.len(),
                    cl.lits@.len() == k + 1,
                    2 <= k <= 20,
                    cl.lits@[0] == lhs,
                    no_dup_vars(cl.lits@),
                    cls@.len() == t,
                    cls@[0] == head[0],
                    head.len() == 1,
                    cls@[0].1.lits@ == cl.lits@,
                    cls@[0].0 is None,
                    forall|u: int|
                        1 <= u < t ==> (#[trigger] cls@[u]).1.lits@ == seq![
                            lit_neg(lhs),
                            lit_neg(cl.lits@[u]),
                        ] && cls@[u].0 is None,
                decreases cl.lits@.len() - t,
            {
                cls.push((None, clause2(lhs.negate(), cl.lits[t].negate())));
                t += 1;
            }
            proof {
                let kk = k as int;
                assert(cls@.len() == kk + 1);
                assert forall|b: int| 0 <= b < cls@.len() implies no_dup_vars(
                    (#[trigger] cls@[b]).1.lits@,
                ) by {
                    if 1 <= b <= kk {
                        assert(cls@[b].1.lits@ == seq![lit_neg(lhs), lit_neg(cl.lits@[b])]);
                        assert(cl.lits@[0].var != cl.lits@[b].var);
                    }
                }
                assert(batch_weight(cls@) == 0) by {
                    assert(forall|b: int| 0 <= b < cls@.len() ==> (#[trigger] cls@[b].0) is None);
                    lemma_batch_weight_all_hard(cls@);
                }
                assert forall|u: int| 1 <= u <= kk implies (#[trigger] cls@[u]).1.lits@ == seq![
                    lit_neg(cls@[0].1.lits@[0]),
                    lit_neg(cls@[0].1.lits@[u]),
                ] && cls@[u].0 is None by {
                    assert(cls@[0].1.lits@[u] == cl.lits@[u]);
                    assert(cls@[0].1.lits@[0] == lhs);
                }
            }
        }
        cls
    }

    /// The clauses of one XOR3 gadget: three literals (their variables may
    /// coincide) and the four clauses of the parity constraint; soft, each
    /// clause carries a fresh blocking literal and the soft unit clause
    /// asserts the blocker's negation. On a seeded source the three
    /// literals are exactly the modelled draws.
    #[verifier::rlimit(60)]
    pub fn xor3_clauses(&mut self, idx: u32) -> (cls: Vec<Cl>)
        requires
            old(self).wf_static(),
            idx < old(self).xors3,
            old(self).n_soft_left@.len() == old(self).objs,
            old(self).soft@[old(self).eqs + old(self).ands + idx] > 0 ==> old(self).n_soft_left@[
                old(self).soft@[old(self).eqs + old(self).ands + idx] - 1] >= 1,
            old(self).soft_left_total == seq_sum_u64(old(self).n_soft_left@),
            old(self).weight_sum + old(self).soft_left_total <= 0x7fff_ffff_ffff_ffff,
            old(self).weight_hi >= 2,
            old(self).next_free_var >= old(self).layers@.last().hi,
            old(self).next_free_var < 0x7fff_ffff,
        ensures
            final(self).wf_static(),
            *final(self) == (MoGenerator {
                rng: final(self).rng,
                n_soft_left: final(self).n_soft_left,
                soft_left_total: final(self).soft_left_total,
                weight_hi: final(self).weight_hi,
                weight_sum: final(self).weight_sum,
                next_free_var: final(self).next_free_var,
                ..*old(self)
            }),
            batch_weight(cls@) == final(self).weight_sum - old(self).weight_sum,
            ({
                let sf = old(self).soft@[old(self).eqs + old(self).ands + idx];
                let base: int = if sf == 0 {
                    0
                } else {
                    1
                };
                let l0 = cls@[0].1.lits@[base];
                let l1 = cls@[0].1.lits@[base + 1];
                let l2 = cls@[0].1.lits@[base + 2];
                &&& cls@[0].1.lits@.len() == base + 3
                &&& cls@[0].0 is None && cls@[1].0 is None && cls@[2].0 is None && cls@[3].0
                    is None
                &&& if sf == 0 {
                    cls@.len() == 4 && cls@[1].1.lits@ == seq![l0, lit_neg(l1), lit_neg(l2)]
                        && cls@[2].1.lits@ == seq![lit_neg(l0), l1, lit_neg(l2)]
                        && cls@[3].1.lits@ == seq![lit_neg(l0), lit_neg(l1), l2]
                        && final(self).n_soft_left@ == old(self).n_soft_left@
                        && final(self).soft_left_total == old(self).soft_left_total
                        && final(self).weight_sum == old(self).weight_sum
                        && final(self).weight_hi == old(self).weight_hi
                        && final(self).next_free_var == old(self).next_free_var
                } else {
                    let b = Lit { var: old(self).next_free_var, neg: false };
                    cls@.len() == 5 && cls@[0].1.lits@[0] == b && cls@[1].1.lits@ == seq![
                        b,
                        l0,
                        lit_neg(l1),
                        lit_neg(l2),
                    ] && cls@[2].1.lits@ == seq![b, lit_neg(l0), l1, lit_neg(l2)]
                        && cls@[3].1.lits@ == seq![b, lit_neg(l0), lit_neg(l1), l2] && (cls@[4].0
                        matches Some(t) && t.0 == sf - 1 && t.1 >= 1 && final(self).weight_sum
                        == old(self).weight_sum + t.1) && cls@[4].1.lits@ == seq![lit_neg(b)]
                        && final(self).n_soft_left@ == old(self).n_soft_left@.update(
                        sf - 1,
                        (old(self).n_soft_left@[sf - 1] - 1) as u64,
                    ) && final(self).soft_left_total == old(self).soft_left_total - 1
                        && final(self).next_free_var == old(self).next_free_var + 1
                }
            }),
            final(self).soft_left_total == seq_sum_u64(final(self).n_soft_left@),
            final(self).weight_sum + final(self).soft_left_total <= 0x7fff_ffff_ffff_ffff,
            final(self).weight_hi >= 2,
            old(self).rng.model().determined ==> ({
                let seed = old(self).rng.model().seed;
                let lay = old(self).layers@;
                let h0 = old(self).rng.model().history;
                let h1 = lit_draw_hist(seed, h0, lay);
                let h2 = lit_draw_hist(seed, h1, lay);
                let base: int = if old(self).soft@[old(self).eqs + old(self).ands + idx] == 0 {
                    0int
                } else {
                    1int
                };
                &&& cls@[0].1.lits@[base].var as u64 == lit_draw(seed, h0, lay).0
                &&& cls@[0].1.lits@[base].neg == lit_draw(seed, h0, lay).1
                &&& cls@[0].1.lits@[base + 1].var as u64 == lit_draw(seed, h1, lay).0
                &&& cls@[0].1.lits@[base + 1].neg == lit_draw(seed, h1, lay).1
                &&& cls@[0].1.lits@[base + 2].var as u64 == lit_draw(seed, h2, lay).0
                &&& cls@[0].1.lits@[base + 2].neg == lit_draw(seed, h2, lay).1
            }),
    {
        let ghost start = *old(self);
        let l0 = self.random_lit();
        let l1 = self.random_lit();
        let l2 = self.random_lit();
        let sidx = (self.eqs + self.ands + idx) as usize;
        let mut cls: Vec<Cl> = Vec::new();
        if self.soft[sidx] > 0 {
            let o = self.soft[sidx] - 1;
            let blit = Lit::new(self.next_free_var, false);
            self.next_free_var = self.next_free_var + 1;
            let w = self.weight(o);
            cls.push((None, clause4(blit, l0, l1, l2)));
            cls.push((None, clause4(blit, l0, l1.negate(), l2.negate())));
            cls.push((None, clause4(blit, l0.negate(), l1, l2.negate())));
            cls.push((None, clause4(blit, l0.negate(), l1.negate(), l2)));
            cls.push((Some((o, w)), clause1(blit.negate())));
            proof {
                assert(batch_weight(cls@) == w) by {
                    assert(forall|b: int|
                        0 <= b < cls@.drop_last().len() ==> (#[trigger] cls@.drop_last()[b].0)
                            is None);
                    lemma_batch_weight_all_hard(cls@.drop_last());
                    assert(cls@.last() == cls@[4]);
                }
                assert(cls@[1].1.lits@ =~= seq![blit, l0, lit_neg(l1), lit_neg(l2)]);
                assert(cls@[2].1.lits@ =~= seq![blit, lit_neg(l0), l1, lit_neg(l2)]);
                assert(cls@[3].1.lits@ =~= seq![blit, lit_neg(l0), lit_neg(l1), l2]);
                assert(cls@[4].1.lits@ =~= seq![lit_neg(blit)]);
            }
        } else {
            cls.push((None, clause3(l0, l1, l2)));
            cls.push((None, clause3(l0, l1.negate(), l2.negate())));
            cls.push((None, clause3(l0.negate(), l1, l2.negate())));
            cls.push((None, clause3(l0.negate(), l1.negate(), l2)));
            proof {
                assert(batch_weight(cls@) == 0) by {
                    assert(forall|b: int| 0 <= b < cls@.len() ==> (#[trigger] cls@[b].0) is None);
                    lemma_batch_weight_all_hard(cls@);
                }
                assert(cls@[1].1.lits@ =~= seq![l0, lit_neg(l1), lit_neg(l2)]);
                assert(cls@[2].1.lits@ =~= seq![lit_neg(l0), l1, lit_neg(l2)]);
                assert(cls@[3].1.lits@ =~= seq![lit_neg(l0), lit_neg(l1), l2]);
            }
        }
        cls
    }

    /// The clauses of one XOR4 gadget: four literals (their variables may
    /// coincide) and the eight clauses of the parity constraint; soft, each
    /// clause carries a fresh blocking literal and the soft unit clause
    /// asserts the blocker's negation. On a seeded source the four literals
    /// are exactly the modelled draws.
    #[verifier::rlimit(60)]
    pub fn xor4_clauses(&mut self, idx: u32) -> (cls: Vec<Cl>)
        requires
            old(self).wf_static(),
            idx < old(self).xors4,
            old(self).n_soft_left@.len() == old(self).objs,
            old(self).soft@[old(self).eqs + old(self).ands + old(self).xors3 + idx] > 0 ==> old(self).n_soft_left@[old(self).soft@[old(self).eqs + old(self).ands + old(self).xors3 + idx]
                - 1] >= 1,
            old(self).soft_left_total == seq_sum_u64(old(self).n_soft_left@),
            old(self).weight_sum + old(self).soft_left_total <= 0x7fff_ffff_ffff_ffff,
            old(self).weight_hi >= 2,
            old(self).next_free_var >= old(self).layers@.last().hi,
            old(self).next_free_var < 0x7fff_ffff,
        ensures
            final(self).wf_static(),
            *final(self) == (MoGenerator {
                rng: final(self).rng,
                n_soft_left: final(self).n_soft_left,
                soft_left_total: final(self).soft_left_total,
                weight_hi: final(self).weight_hi,
                weight_sum: final(self).weight_sum,
                next_free_var: final(self).next_free_var,
                ..*old(self)
            }),
            batch_weight(cls@) == final(self).weight_sum - old(self).weight_sum,
            ({
                let sf = old(self).soft@[old(self).eqs + old(self).ands + old(self).xors3 + idx];
                let base: int = if sf == 0 {
                    0
                } else {
                    1
                };
                let l0 = cls@[0].1.lits@[base];
                let l1 = cls@[0].1.lits@[base + 1];
                let l2 = cls@[0].1.lits@[base + 2];
                let l3 = cls@[0].1.lits@[base + 3];
                &&& cls@[0].1.lits@.len() == base + 4
                &&& forall|b: int| 0 <= b < 8 ==> (#[trigger] cls@[b]).0 is None
                &&& if sf == 0 {
                    cls@.len() == 8 && cls@[1].1.lits@ == seq![l0, l1, lit_neg(l2), lit_neg(l3)]
                        && cls@[2].1.lits@ == seq![l0, lit_neg(l1), l2, lit_neg(l3)]
                        && cls@[3].1.lits@ == seq![l0, lit_neg(l1), lit_neg(l2), l3]
                        && cls@[4].1.lits@ == seq![lit_neg(l0), l1, l2, lit_neg(l3)]
                        && cls@[5].1.lits@ == seq![lit_neg(l0), l1, lit_neg(l2), l3]
                        && cls@[6].1.lits@ == seq![lit_neg(l0), lit_neg(l1), l2, l3]
                        && cls@[7].1.lits@ == seq![
                        lit_neg(l0),
                        lit_neg(l1),
                        lit_neg(l2),
                        lit_neg(l3),
                    ] && final(self).n_soft_left@ == old(self).n_soft_left@
                        && final(self).soft_left_total == old(self).soft_left_total
                        && final(self).weight_sum == old(self).weight_sum
                        && final(self).weight_hi == old(self).weight_hi
                        && final(self).next_free_var == old(self).next_free_var
                } else {
                    let b = Lit { var: old(self).next_free_var, neg: false };
                    cls@.len() == 9 && cls@[0].1.lits@[0] == b && cls@[1].1.lits@ == seq![
                        b,
                        l0,
                        l1,
                        lit_neg(l2),
                        lit_neg(l3),
                    ] && cls@[2].1.lits@ == seq![b, l0, lit_neg(l1), l2, lit_neg(l3)]
                        && cls@[3].1.lits@ == seq![b, l0, lit_neg(l1), lit_neg(l2), l3]
                        && cls@[4].1.lits@ == seq![b, lit_neg(l0), l1, l2, lit_neg(l3)]
                        && cls@[5].1.lits@ == seq![b, lit_neg(l0), l1, lit_neg(l2), l3]
                        && cls@[6].1.lits@ == seq![b, lit_neg(l0), lit_neg(l1), l2, l3]
                        && cls@[7].1.lits@ == seq![
                        b,
                        lit_neg(l0),
                        lit_neg(l1),
                        lit_neg(l2),
                        lit_neg(l3),
                    ] && (cls@[8].0 matches Some(t) && t.0 == sf - 1 && t.1 >= 1 && final(self).weight_sum == old(self).weight_sum + t.1) && cls@[8].1.lits@ == seq![
                        lit_neg(b),
                    ] && final(self).n_soft_left@ == old(self).n_soft_left@.update(
                        sf - 1,
                        (old(self).n_soft_left@[sf - 1] - 1) as u64,
                    ) && final(self).soft_left_total == old(self).soft_left_total - 1
                        && final(self).next_free_var == old(self).next_free_var + 1
                }
            }),
            final(self).soft_left_total == seq_sum_u64(final(self).n_soft_left@),
            final(self).weight_sum + final(self).soft_left_total <= 0x7fff_ffff_ffff_ffff,
            final(self).weight_hi >= 2,
            old(self).rng.model().determined ==> ({
                let seed = old(self).rng.model().seed;
                let lay = old(self).layers@;
                let h0 = old(self).rng.model().history;
                let h1 = lit_draw_hist(seed, h0, lay);
                let h2 = lit_draw_hist(seed, h1, lay);
                let h3 = lit_draw_hist(seed, h2, lay);
                let base: int = if old(self).soft@[old(self).eqs + old(self).ands + old(
                    self,
                ).xors3 + idx] == 0 {
                    0int
                } else {
                    1int
                };
                &&& cls@[0].1.lits@[base].var as u64 == lit_draw(seed, h0, lay).0
                &&& cls@[0].1.lits@[base].neg == lit_draw(seed, h0, lay).1
                &&& cls@[0].1.lits@[base + 1].var as u64 == lit_draw(seed, h1, lay).0
                &&& cls@[0].1.lits@[base + 1].neg == lit_draw(seed, h1, lay).1
                &&& cls@[0].1.lits@[base + 2].var as u64 == lit_draw(seed, h2, lay).0
                &&& cls@[0].1.lits@[base + 2].neg == lit_draw(seed, h2, lay).1
                &&& cls@[0].1.lits@[base + 3].var as u64 == lit_draw(seed, h3, lay).0
                &&& cls@[0].1.lits@[base + 3].neg == lit_draw(seed, h3, lay).1
            }),
    {
        let ghost start = *old(self);
        let l0 = self.random_lit();
        let l1 = self.random_lit();
        let l2 = self.random_lit();
        let l3 = self.random_lit();
        let sidx = (self.eqs + self.ands + self.xors3 + idx) as usize;
        let mut cls: Vec<Cl> = Vec::new();
        if self.soft[sidx] > 0 {
            let o = self.soft[sidx] - 1;
            let blit = Lit::new(self.next_free_var, false);
            self.next_free_var = self.next_free_var + 1;
            let w = self.weight(o);
            cls.push((None, clause5(blit, l0, l1, l2, l3)));
            cls.push((None, clause5(blit, l0, l1, l2.negate(), l3.negate())));
            cls.push((None, clause5(blit, l0, l1.negate(), l2, l3.negate())));
            cls.push((None, clause5(blit, l0, l1.negate(), l2.negate(), l3)));
            cls.push((None, clause5(blit, l0.negate(), l1, l2, l3.negate())));
            cls.push((None, clause5(blit, l0.negate(), l1, l2.negate(), l3)));
            cls.push((None, clause5(blit, l0.negate(), l1.negate(), l2, l3)));
            cls.push((None, clause5(blit, l0.negate(), l1.negate(), l2.negate(), l3.negate())));
            cls.push((Some((o, w)), clause1(blit.negate())));
            proof {
                assert(batch_weight(cls@) == w) by {
                    assert(forall|b: int|
                        0 <= b < cls@.drop_last().len() ==> (#[trigger] cls@.drop_last()[b].0)
                            is None);
                    lemma_batch_weight_all_hard(cls@.drop_last());
                    assert(cls@.last() == cls@[8]);
                }
                assert(cls@[8].1.lits@ =~= seq![lit_neg(blit)]);
                assert(cls@[1].1.lits@ =~= seq![blit, l0, l1, lit_neg(l2), lit_neg(l3)]);
                assert(cls@[2].1.lits@ =~= seq![blit, l0, lit_neg(l1), l2, lit_neg(l3)]);
                assert(cls@[3].1.lits@ =~= seq![blit, l0, lit_neg(l1), lit_neg(l2), l3]);
                assert(cls@[4].1.lits@ =~= seq![blit, lit_neg(l0), l1, l2, lit_neg(l3)]);
                assert(cls@[5].1.lits@ =~= seq![blit, lit_neg(l0), l1, lit_neg(l2), l3]);
                assert(cls@[6].1.lits@ =~= seq![blit, lit_neg(l0), lit_neg(l1), l2, l3]);
                assert(cls@[7].1.lits@ =~= seq![
                    blit,
                    lit_neg(l0),
                    lit_neg(l1),
                    lit_neg(l2),
                    lit_neg(l3),
                ]);
            }
        } else {
            cls.push((None, clause4(l0, l1, l2, l3)));
            cls.push((None, clause4(l0, l1, l2.negate(), l3.negate())));
            cls.push((None, clause4(l0, l1.negate(), l2, l3.negate())));
            cls.push((None, clause4(l0, l1.negate(), l2.negate(), l3)));
            cls.push((None, clause4(l0.negate(), l1, l2, l3.negate())));
            cls.push((None, clause4(l0.negate(), l1, l2.negate(), l3)));
            cls.push((None, clause4(l0.negate(), l1.negate(), l2, l3)));
            cls.push((None, clause4(l0.negate(), l1.negate(), l2.negate(), l3.negate())));
            proof {
                assert(batch_weight(cls@) == 0) by {
                    assert(forall|b: int| 0 <= b < cls@.len() ==> (#[trigger] cls@[b].0) is None);
                    lemma_batch_weight_all_hard(cls@);
                }
                assert(cls@[1].1.lits@ =~= seq![l0, l1, lit_neg(l2), lit_neg(l3)]);
                assert(cls@[2].1.lits@ =~= seq![l0, lit_neg(l1), l2, lit_neg(l3)]);
                assert(cls@[3].1.lits@ =~= seq![l0, lit_neg(l1), lit_neg(l2), l3]);
                assert(cls@[4].1.lits@ =~= seq![lit_neg(l0), l1, l2, lit_neg(l3)]);
                assert(cls@[5].1.lits@ =~= seq![lit_neg(l0), l1, lit_neg(l2), l3]);
                assert(cls@[6].1.lits@ =~= seq![lit_neg(l0), lit_neg(l1), l2, l3]);
                assert(cls@[7].1.lits@ =~= seq![
                    lit_neg(l0),
                    lit_neg(l1),
                    lit_neg(l2),
                    lit_neg(l3),
                ]);
            }
        }
        cls
    }

    /// The rank of the cursor's phase, for termination of the cursor walk.
    pub open spec fn phase_rank(&self) -> int {
        match self.state {
            LineType::Header(_) => 6,
            LineType::LayerDesc(_) => 5,
            LineType::LayerCl(_, _) => 4,
            LineType::EqCl(_) => 3,
            LineType::AndCl(_) => 2,
            LineType::Xor3Cl(_) => 1,
            LineType::Xor4Cl(_) => 0,
        }
    }

    /// The rank within the layer-clause phase.
    pub open spec fn inner_rank(&self) -> int {
        match self.state {
            LineType::LayerCl(l, _) => self.layers@.len() - l,
            _ => 0,
        }
    }

    /// Everything still to come is non-negative.
    proof fn lemma_left_nonneg(&self)
        requires
            self.wf(),
        ensures
            self.rem_comments() >= 0,
            self.rem_clauses() >= 0,
            self.lines_left() >= 0,
            self.clauses_left() >= 0,
    {
        lemma_arity_sum_bound(self.arity@, 0);
        lemma_soft_extra_bound(self.soft@, 0);
        match self.state {
            LineType::LayerCl(l, c) => {
                if (l as int) < self.layers@.len() {
                    lemma_layers_clauses_bound(self.layers@, l + 1);
                } else {
                    lemma_layers_clauses_bound(self.layers@, l as int);
                }
            },
            LineType::EqCl(i) => {
                lemma_soft_extra_bound(self.soft@, i as int);
            },
            LineType::AndCl(i) => {
                lemma_arity_sum_bound(self.arity@, i as int);
                lemma_soft_extra_bound(self.soft@, self.eqs + i);
            },
            LineType::Xor3Cl(i) => {
                lemma_soft_extra_bound(self.soft@, self.eqs + self.ands + i);
            },
            LineType::Xor4Cl(i) => {
                lemma_soft_extra_bound(self.soft@, self.eqs + self.ands + self.xors3 + i);
            },
            _ => {
                lemma_layers_clauses_bound(self.layers@, 0);
            },
        }
    }
}

impl MoGenerator {
    /// One gadget step of the stream at cursor `EqCl`.
    #[verifier::rlimit(100)]
    fn step_eq(&mut self, i: u32) -> (r: GenLine)
        requires
            old(self).wf(),
            old(self).state == LineType::EqCl(i),
            i < old(self).eqs,
            old(self).buffer@.len() == 0,
        ensures
            final(self).wf(),
            final(self).objs == old(self).objs,
            final(self).declared_clauses() == old(self).declared_clauses(),
            final(self).declared_lines() == old(self).declared_lines(),
            old(self).lines_left() > 0,
            final(self).lines_left() == old(self).lines_left() - 1,
            final(self).emitted@.lines == old(self).emitted@.lines + 1,
            final(self).emitted@.clauses == old(self).emitted@.clauses + 1,
            final(self).emitted@.soft == old(self).emitted@.soft,
            final(self).phase_rank() == old(self).phase_rank(),
            r is Hard,
    {
        proof {
            old(self).lemma_left_nonneg();
        }
        let ghost b0 = *old(self);
                proof {
                    if self.soft@[i as int] > 0 {
                        let o = (self.soft@[i as int] - 1) as u8;
                        assert(o < self.objs);
                        assert(self.n_soft_left@[o as int] == self.soft_left_spec(o));
                        lemma_soft_count_bound(self.soft@, i + 1, o);
                        assert(self.soft@[i as int] == o + 1);
                        assert(self.n_soft_left@[o as int] >= 1);
                    }
                    assert(self.next_free_var < 0x7fff_ffff);
                    assert(self.lines_left() > 0) by {
                        lemma_arity_sum_bound(self.arity@, 0);
                        lemma_soft_extra_bound(self.soft@, i as int);
                    }
                }
                let mut cls = self.eq_clauses(i);
                let ghost full = cls@;
                let first = cls.remove(0);
                self.buffer.append(&mut cls);
                self.state = LineType::EqCl(i + 1);
                let ghost es = self.emitted@;
                self.emitted = Ghost(
                    EmitStats {
                        lines: es.lines + 1,
                        clauses: es.clauses + 1,
                        soft: es.soft,
                        soft_counts: es.soft_counts,
                    },
                );
                proof {
                    assert(full =~= seq![full[0]] + full.remove(0));
                    lemma_batch_weight_concat(seq![full[0]], full.remove(0));
                    assert(seq![full[0]].last() == full[0]);
                    assert(full[0].0 is None);
                    assert(batch_weight(seq![full[0]]) == 0) by {
                        assert(seq![full[0]].drop_last() =~= Seq::<Cl>::empty());
                        assert(batch_weight(Seq::<Cl>::empty()) == 0);
                    }
                    assert(self.buffer@ =~= full.remove(0));
                    assert(soft_extra_from(self.soft@, i as int) == (if self.soft@[i as int]
                        > 0 {
                        1int
                    } else {
                        0int
                    }) + soft_extra_from(self.soft@, i + 1));
                    assert forall|o: u8| o < self.objs implies self.n_soft_left@[o as int]
                        == self.soft_left_spec(o) by {
                        assert(b0.n_soft_left@[o as int] == b0.soft_left_spec(o));
                        assert(soft_count_from(self.soft@, i as int, o) == (if self.soft@[
                            i as int] == o + 1 {
                            1int
                        } else {
                            0int
                        }) + soft_count_from(self.soft@, i + 1, o));
                    }
                    assert forall|o: u8| #![trigger self.soft_left_spec(o)]
                        o < self.objs implies self.emitted@.soft_counts[o as int]
                        + batch_soft_count(self.buffer@, o) + self.soft_left_spec(o)
                        == layers_soft_from(self.layers@, 0, 0, o) + soft_count_from(
                        self.soft@,
                        0,
                        o,
                    ) by {
                        assert(b0.emitted@.soft_counts[o as int] + batch_soft_count(b0.buffer@, o)
                            + b0.soft_left_spec(o) == layers_soft_from(b0.layers@, 0, 0, o)
                            + soft_count_from(b0.soft@, 0, o));
                        assert(batch_soft_count(b0.buffer@, o) == 0);
                        assert(soft_count_from(self.soft@, i as int, o) == (if self.soft@[
                            i as int] == o + 1 {
                            1int
                        } else {
                            0int
                        }) + soft_count_from(self.soft@, i + 1, o));
                        lemma_batch_soft_count_concat(seq![full[0]], full.remove(0), o);
                        lemma_batch_soft_count_all_hard(seq![full[0]], o);
                        if self.soft@[i as int] > 0 {
                            assert(forall|b: int|
                                0 <= b < full.drop_last().len() ==> (#[trigger] full.drop_last()[
                                    b].0) is None);
                            lemma_batch_soft_count_all_hard(full.drop_last(), o);
                            assert(full.last() == full[full.len() - 1]);
                            assert(batch_soft_count(full, o) == (if self.soft@[i as int]
                                == o + 1 {
                                1int
                            } else {
                                0int
                            }));
                        } else {
                            assert(forall|b: int|
                                0 <= b < full.len() ==> (#[trigger] full[b].0) is None);
                            lemma_batch_soft_count_all_hard(full, o);
                        }
                    }
                }
        map_clause(first)
    }

    /// One gadget step of the stream at cursor `AndCl`.
    #[verifier::rlimit(100)]
    fn step_and(&mut self, i: u32) -> (r: GenLine)
        requires
            old(self).wf(),
            old(self).state == LineType::AndCl(i),
            i < old(self).ands,
            old(self).buffer@.len() == 0,
        ensures
            final(self).wf(),
            final(self).objs == old(self).objs,
            final(self).declared_clauses() == old(self).declared_clauses(),
            final(self).declared_lines() == old(self).declared_lines(),
            old(self).lines_left() > 0,
            final(self).lines_left() == old(self).lines_left() - 1,
            final(self).emitted@.lines == old(self).emitted@.lines + 1,
            final(self).emitted@.clauses == old(self).emitted@.clauses + 1,
            final(self).emitted@.soft == old(self).emitted@.soft,
            final(self).phase_rank() == old(self).phase_rank(),
            r is Hard,
    {
        proof {
            old(self).lemma_left_nonneg();
        }
        let ghost b0 = *old(self);
                proof {
                    if self.soft@[self.eqs + i] > 0 {
                        let o = (self.soft@[self.eqs + i] - 1) as u8;
                        assert(o < self.objs);
                        assert(self.n_soft_left@[o as int] == self.soft_left_spec(o));
                        lemma_soft_count_bound(self.soft@, self.eqs + i + 1, o);
                        assert(self.soft@[self.eqs + i] == o + 1);
                        assert(self.n_soft_left@[o as int] >= 1);
                    }
                    assert(self.next_free_var < 0x7fff_ffff);
                    assert(self.lines_left() > 0) by {
                        lemma_arity_sum_bound(self.arity@, i + 1);
                        lemma_soft_extra_bound(self.soft@, self.eqs + i);
                        assert(arity_sum_from(self.arity@, i as int) == (self.arity@[
                            i as int] + 1) + arity_sum_from(self.arity@, i + 1));
                    }
                }
                let mut cls = self.and_clauses(i);
                let ghost full = cls@;
                let first = cls.remove(0);
                self.buffer.append(&mut cls);
                self.state = LineType::AndCl(i + 1);
                let ghost es = self.emitted@;
                self.emitted = Ghost(
                    EmitStats {
                        lines: es.lines + 1,
                        clauses: es.clauses + 1,
                        soft: es.soft,
                        soft_counts: es.soft_counts,
                    },
                );
                proof {
                    assert(full =~= seq![full[0]] + full.remove(0));
                    lemma_batch_weight_concat(seq![full[0]], full.remove(0));
                    assert(seq![full[0]].last() == full[0]);
                    assert(full[0].0 is None);
                    assert(batch_weight(seq![full[0]]) == 0) by {
                        assert(seq![full[0]].drop_last() =~= Seq::<Cl>::empty());
                        assert(batch_weight(Seq::<Cl>::empty()) == 0);
                    }
                    assert(self.buffer@ =~= full.remove(0));
                    assert(arity_sum_from(self.arity@, i as int) == (self.arity@[i as int]
                        + 1) + arity_sum_from(self.arity@, i + 1));
                    assert(soft_extra_from(self.soft@, self.eqs + i) == (if self.soft@[
                        self.eqs + i] > 0 {
                        1int
                    } else {
                        0int
                    }) + soft_extra_from(self.soft@, self.eqs + i + 1));
                    assert forall|o: u8| o < self.objs implies self.n_soft_left@[o as int]
                        == self.soft_left_spec(o) by {
                        assert(b0.n_soft_left@[o as int] == b0.soft_left_spec(o));
                        assert(soft_count_from(self.soft@, self.eqs + i, o) == (
                        if self.soft@[self.eqs + i] == o + 1 {
                            1int
                        } else {
                            0int
                        }) + soft_count_from(self.soft@, self.eqs + i + 1, o));
                    }
                    assert forall|o: u8| #![trigger self.soft_left_spec(o)]
                        o < self.objs implies self.emitted@.soft_counts[o as int]
                        + batch_soft_count(self.buffer@, o) + self.soft_left_spec(o)
                        == layers_soft_from(self.layers@, 0, 0, o) + soft_count_from(
                        self.soft@,
                        0,
                        o,
                    ) by {
                        assert(b0.emitted@.soft_counts[o as int] + batch_soft_count(b0.buffer@, o)
                            + b0.soft_left_spec(o) == layers_soft_from(b0.layers@, 0, 0, o)
                            + soft_count_from(b0.soft@, 0, o));
                        assert(batch_soft_count(b0.buffer@, o) == 0);
                        assert(soft_count_from(self.soft@, self.eqs + i, o) == (if self.soft@[
                            self.eqs + i] == o + 1 {
                            1int
                        } else {
                            0int
                        }) + soft_count_from(self.soft@, self.eqs + i + 1, o));
                        lemma_batch_soft_count_concat(seq![full[0]], full.remove(0), o);
                        lemma_batch_soft_count_all_hard(seq![full[0]], o);
                        if self.soft@[self.eqs + i] > 0 {
                            assert(forall|b: int|
                                0 <= b < full.drop_last().len() ==> (#[trigger] full.drop_last()[
                                    b].0) is None);
                            lemma_batch_soft_count_all_hard(full.drop_last(), o);
                            assert(full.last() == full[full.len() - 1]);
                            assert(batch_soft_count(full, o) == (if self.soft@[self.eqs + i]
                                == o + 1 {
                                1int
                            } else {
                                0int
                            }));
                        } else {
                            assert(forall|b: int|
                                0 <= b < full.len() ==> (#[trigger] full[b].0) is None);
                            lemma_batch_soft_count_all_hard(full, o);
                        }
                    }
                }
        map_clause(first)
    }

    /// One gadget step of the stream at cursor `Xor3Cl`.
    #[verifier::rlimit(100)]
    fn step_xor3(&mut self, i: u32) -> (r: GenLine)
        requires
            old(self).wf(),
            old(self).state == LineType::Xor3Cl(i),
            i < old(self).xors3,
            old(self).buffer@.len() == 0,
        ensures
            final(self).wf(),
            final(self).objs == old(self).objs,
            final(self).declared_clauses() == old(self).declared_clauses(),
            final(self).declared_lines() == old(self).declared_lines(),
            old(self).lines_left() > 0,
            final(self).lines_left() == old(self).lines_left() - 1,
            final(self).emitted@.lines == old(self).emitted@.lines + 1,
            final(self).emitted@.clauses == old(self).emitted@.clauses + 1,
            final(self).emitted@.soft == old(self).emitted@.soft,
            final(self).phase_rank() == old(self).phase_rank(),
            r is Hard,
    {
        proof {
            old(self).lemma_left_nonneg();
        }
        let ghost b0 = *old(self);
                proof {
                    if self.soft@[self.eqs + self.ands + i] > 0 {
                        let o = (self.soft@[self.eqs + self.ands + i] - 1) as u8;
                        assert(o < self.objs);
                        assert(self.n_soft_left@[o as int] == self.soft_left_spec(o));
                        lemma_soft_count_bound(self.soft@, self.eqs + self.ands + i + 1, o);
                        assert(self.soft@[self.eqs + self.ands + i] == o + 1);
                        assert(self.n_soft_left@[o as int] >= 1);
                    }
                    assert(self.next_free_var < 0x7fff_ffff);
                    assert(self.lines_left() > 0) by {
                        lemma_soft_extra_bound(self.soft@, self.eqs + self.ands + i);
                    }
                }
                let mut cls = self.xor3_clauses(i);
                let ghost full = cls@;
                let first = cls.remove(0);
                self.buffer.append(&mut cls);
                self.state = LineType::Xor3Cl(i + 1);
                let ghost es = self.emitted@;
                self.emitted = Ghost(
                    EmitStats {
                        lines: es.lines + 1,
                        clauses: es.clauses + 1,
                        soft: es.soft,
                        soft_counts: es.soft_counts,
                    },
                );
                proof {
                    assert(full =~= seq![full[0]] + full.remove(0));
                    lemma_batch_weight_concat(seq![full[0]], full.remove(0));
                    assert(seq![full[0]].last() == full[0]);
                    assert(full[0].0 is None);
                    assert(batch_weight(seq![full[0]]) == 0) by {
                        assert(seq![full[0]].drop_last() =~= Seq::<Cl>::empty());
                        assert(batch_weight(Seq::<Cl>::empty()) == 0);
                    }
                    assert(self.buffer@ =~= full.remove(0));
                    assert(soft_extra_from(self.soft@, self.eqs + self.ands + i) == (
                    if self.soft@[self.eqs + self.ands + i] > 0 {
                        1int
                    } else {
                        0int
                    }) + soft_extra_from(self.soft@, self.eqs + self.ands + i + 1));
                    assert forall|o: u8| o < self.objs implies self.n_soft_left@[o as int]
                        == self.soft_left_spec(o) by {
                        assert(b0.n_soft_left@[o as int] == b0.soft_left_spec(o));
                        assert(soft_count_from(self.soft@, self.eqs + self.ands + i, o)
                            == (if self.soft@[self.eqs + self.ands + i] == o + 1 {
                            1int
                        } else {
                            0int
                        }) + soft_count_from(self.soft@, self.eqs + self.ands + i + 1, o));
                    }
                    assert forall|o: u8| #![trigger self.soft_left_spec(o)]
                        o < self.objs implies self.emitted@.soft_counts[o as int]
                        + batch_soft_count(self.buffer@, o) + self.soft_left_spec(o)
                        == layers_soft_from(self.layers@, 0, 0, o) + soft_count_from(
                        self.soft@,
                        0,
                        o,
                    ) by {
                        assert(b0.emitted@.soft_counts[o as int] + batch_soft_count(b0.buffer@, o)
                            + b0.soft_left_spec(o) == layers_soft_from(b0.layers@, 0, 0, o)
                            + soft_count_from(b0.soft@, 0, o));
                        assert(batch_soft_count(b0.buffer@, o) == 0);
                        assert(soft_count_from(self.soft@, self.eqs + self.ands + i, o) == (if self.soft@[
                            self.eqs + self.ands + i] == o + 1 {
                            1int
                        } else {
                            0int
                        }) + soft_count_from(self.soft@, self.eqs + self.ands + i + 1, o));
                        lemma_batch_soft_count_concat(seq![full[0]], full.remove(0), o);
                        lemma_batch_soft_count_all_hard(seq![full[0]], o);
                        if self.soft@[self.eqs + self.ands + i] > 0 {
                            assert(forall|b: int|
                                0 <= b < full.drop_last().len() ==> (#[trigger] full.drop_last()[
                                    b].0) is None);
                            lemma_batch_soft_count_all_hard(full.drop_last(), o);
                            assert(full.last() == full[full.len() - 1]);
                            assert(batch_soft_count(full, o) == (if self.soft@[self.eqs + self.ands + i]
                                == o + 1 {
                                1int
                            } else {
                                0int
                            }));
                        } else {
                            assert(forall|b: int|
                                0 <= b < full.len() ==> (#[trigger] full[b].0) is None);
                            lemma_batch_soft_count_all_hard(full, o);
                        }
                    }
                }
        map_clause(first)
    }

    /// One gadget step of the stream at cursor `Xor4Cl`.
    #[verifier::rlimit(100)]
    fn step_xor4(&mut self, i: u32) -> (r: GenLine)
        requires
            old(self).wf(),
            old(self).state == LineType::Xor4Cl(i),
            i < old(self).xors4,
            old(self).buffer@.len() == 0,
        ensures
            final(self).wf(),
            final(self).objs == old(self).objs,
            final(self).declared_clauses() == old(self).declared_clauses(),
            final(self).declared_lines() == old(self).declared_lines(),
            old(self).lines_left() > 0,
            final(self).lines_left() == old(self).lines_left() - 1,
            final(self).emitted@.lines == old(self).emitted@.lines + 1,
            final(self).emitted@.clauses == old(self).emitted@.clauses + 1,
            final(self).emitted@.soft == old(self).emitted@.soft,
            final(self).phase_rank() == old(self).phase_rank(),
            r is Hard,
    {
        proof {
            old(self).lemma_left_nonneg();
        }
        let ghost b0 = *old(self);
                proof {
                    if self.soft@[self.eqs + self.ands + self.xors3 + i] > 0 {
                        let o = (self.soft@[self.eqs + self.ands + self.xors3 + i]
                            - 1) as u8;
                        assert(o < self.objs);
                        assert(self.n_soft_left@[o as int] == self.soft_left_spec(o));
                        lemma_soft_count_bound(
                            self.soft@,
                            self.eqs + self.ands + self.xors3 + i + 1,
                            o,
                        );
                        assert(self.soft@[self.eqs + self.ands + self.xors3 + i] == o + 1);
                        assert(self.n_soft_left@[o as int] >= 1);
                    }
                    assert(self.next_free_var < 0x7fff_ffff);
                    assert(self.lines_left() > 0) by {
                        lemma_soft_extra_bound(
                            self.soft@,
                            self.eqs + self.ands + self.xors3 + i,
                        );
                    }
                }
                let mut cls = self.xor4_clauses(i);
                let ghost full = cls@;
                let first = cls.remove(0);
                self.buffer.append(&mut cls);
                self.state = LineType::Xor4Cl(i + 1);
                let ghost es = self.emitted@;
                self.emitted = Ghost(
                    EmitStats {
                        lines: es.lines + 1,
                        clauses: es.clauses + 1,
                        soft: es.soft,
                        soft_counts: es.soft_counts,
                    },
                );
                proof {
                    assert(full =~= seq![full[0]] + full.remove(0));
                    lemma_batch_weight_concat(seq![full[0]], full.remove(0));
                    assert(seq![full[0]].last() == full[0]);
                    assert(full[0].0 is None);
                    assert(batch_weight(seq![full[0]]) == 0) by {
                        assert(seq![full[0]].drop_last() =~= Seq::<Cl>::empty());
                        assert(batch_weight(Seq::<Cl>::empty()) == 0);
                    }
                    assert(self.buffer@ =~= full.remove(0));
                    assert(soft_extra_from(
                        self.soft@,
                        self.eqs + self.ands + self.xors3 + i,
                    ) == (if self.soft@[self.eqs + self.ands + self.xors3 + i] > 0 {
                        1int
                    } else {
                        0int
                    }) + soft_extra_from(
                        self.soft@,
                        self.eqs + self.ands + self.xors3 + i + 1,
                    ));
                    assert forall|o: u8| o < self.objs implies self.n_soft_left@[o as int]
                        == self.soft_left_spec(o) by {
                        assert(b0.n_soft_left@[o as int] == b0.soft_left_spec(o));
                        assert(soft_count_from(
                            self.soft@,
                            self.eqs + self.ands + self.xors3 + i,
                            o,
                        ) == (if self.soft@[self.eqs + self.ands + self.xors3 + i] == o
                            + 1 {
                            1int
                        } else {
                            0int
                        }) + soft_count_from(
                            self.soft@,
                            self.eqs + self.ands + self.xors3 + i + 1,
                            o,
                        ));
                    }
                    assert forall|o: u8| #![trigger self.soft_left_spec(o)]
                        o < self.objs implies self.emitted@.soft_counts[o as int]
                        + batch_soft_count(self.buffer@, o) + self.soft_left_spec(o)
                        == layers_soft_from(self.layers@, 0, 0, o) + soft_count_from(
                        self.soft@,
                        0,
                        o,
                    ) by {
                        assert(b0.emitted@.soft_counts[o as int] + batch_soft_count(b0.buffer@, o)
                            + b0.soft_left_spec(o) == layers_soft_from(b0.layers@, 0, 0, o)
                            + soft_count_from(b0.soft@, 0, o));
                        assert(batch_soft_count(b0.buffer@, o) == 0);
                        assert(soft_count_from(self.soft@, self.eqs + self.ands + self.xors3 + i, o) == (if self.soft@[
                            self.eqs + self.ands + self.xors3 + i] == o + 1 {
                            1int
                        } else {
                            0int
                        }) + soft_count_from(self.soft@, self.eqs + self.ands + self.xors3 + i + 1, o));
                        lemma_batch_soft_count_concat(seq![full[0]], full.remove(0), o);
                        lemma_batch_soft_count_all_hard(seq![full[0]], o);
                        if self.soft@[self.eqs + self.ands + self.xors3 + i] > 0 {
                            assert(forall|b: int|
                                0 <= b < full.drop_last().len() ==> (#[trigger] full.drop_last()[
                                    b].0) is None);
                            lemma_batch_soft_count_all_hard(full.drop_last(), o);
                            assert(full.last() == full[full.len() - 1]);
                            assert(batch_soft_count(full, o) == (if self.soft@[self.eqs + self.ands + self.xors3 + i]
                                == o + 1 {
                                1int
                            } else {
                                0int
                            }));
                        } else {
                            assert(forall|b: int|
                                0 <= b < full.len() ==> (#[trigger] full[b].0) is None);
                            lemma_batch_soft_count_all_hard(full, o);
                        }
                    }
                }
        map_clause(first)
    }

    /// One layer-clause step of the stream at cursor `LayerCl(l, c)`.
    #[verifier::rlimit(100)]
    fn step_layer(&mut self, l: u8, c: u32) -> (r: GenLine)
        requires
            old(self).wf(),
            old(self).state == LineType::LayerCl(l, c),
            (l as int) < old(self).layers@.len(),
            c < old(self).layers@[l as int].n_clauses,
            old(self).buffer@.len() == 0,
        ensures
            final(self).wf(),
            final(self).objs == old(self).objs,
            final(self).declared_clauses() == old(self).declared_clauses(),
            final(self).declared_lines() == old(self).declared_lines(),
            old(self).lines_left() > 0,
            final(self).lines_left() == old(self).lines_left() - 1,
            final(self).emitted@.lines == old(self).emitted@.lines + 1,
            final(self).emitted@.clauses == old(self).emitted@.clauses + 1,
            !(r is Comment),
            r is Hard ==> final(self).emitted@.soft == old(self).emitted@.soft,
            r matches GenLine::Soft(_, w, o) ==> (o as int) < old(self).objs && w >= 1 && final(self).emitted@.soft == old(self).emitted@.soft.update(
                o as int,
                old(self).emitted@.soft[o as int] + w,
            ),
            final(self).phase_rank() == old(self).phase_rank(),
    {
        proof {
            old(self).lemma_left_nonneg();
        }
        let ghost b0 = *old(self);
                proof {
                    if self.layers@[l as int].soft > 0 {
                        let o = (self.layers@[l as int].soft - 1) as u8;
                        assert(o < self.objs);
                        assert(self.n_soft_left@[o as int] == self.soft_left_spec(o));
                        lemma_layers_soft_bound(self.layers@, l + 1, o);
                        lemma_soft_count_bound(self.soft@, 0, o);
                        assert(self.n_soft_left@[o as int] >= 1);
                    }
                    assert(self.lines_left() > 0) by {
                        lemma_layers_clauses_bound(self.layers@, l + 1);
                        lemma_arity_sum_bound(self.arity@, 0);
                        lemma_soft_extra_bound(self.soft@, 0);
                    }
                }
                let cl = self.layer_clause(l, c);
                self.state = LineType::LayerCl(l, c + 1);
                let ghost es = self.emitted@;
                match cl.0 {
                    Some((o, w)) => {
                        proof {
                            lemma_seq_sum_int_update_add(es.soft, o as int, w as int);
                        }
                        self.emitted = Ghost(
                            EmitStats {
                                lines: es.lines + 1,
                                clauses: es.clauses + 1,
                                soft: es.soft.update(o as int, es.soft[o as int] + w),
                                soft_counts: es.soft_counts.update(
                                    o as int,
                                    es.soft_counts[o as int] + 1,
                                ),
                            },
                        );
                    },
                    None => {
                        self.emitted = Ghost(
                            EmitStats {
                                lines: es.lines + 1,
                                clauses: es.clauses + 1,
                                soft: es.soft,
                                soft_counts: es.soft_counts,
                            },
                        );
                    },
                }
                proof {
                    lemma_layers_same_shape_clauses(b0.layers@, self.layers@, 0, 0);
                    lemma_layers_same_shape_clauses(
                        b0.layers@,
                        self.layers@,
                        l as int,
                        c as int,
                    );
                    lemma_layers_same_shape_clauses(b0.layers@, self.layers@, l as int, c + 1);
                    assert forall|o: u8| o < self.objs implies self.n_soft_left@[o as int]
                        == self.soft_left_spec(o) by {
                        assert(b0.n_soft_left@[o as int] == b0.soft_left_spec(o));
                        lemma_layers_same_shape_soft(
                            b0.layers@,
                            self.layers@,
                            l as int,
                            c as int,
                            o,
                        );
                        lemma_layers_same_shape_soft(
                            b0.layers@,
                            self.layers@,
                            l as int,
                            c + 1,
                            o,
                        );
                    }
                    assert forall|o: u8| #![trigger self.soft_left_spec(o)]
                        o < self.objs implies self.emitted@.soft_counts[o as int]
                        + batch_soft_count(self.buffer@, o) + self.soft_left_spec(o)
                        == layers_soft_from(self.layers@, 0, 0, o) + soft_count_from(
                        self.soft@,
                        0,
                        o,
                    ) by {
                        assert(b0.emitted@.soft_counts[o as int] + batch_soft_count(b0.buffer@, o)
                            + b0.soft_left_spec(o) == layers_soft_from(b0.layers@, 0, 0, o)
                            + soft_count_from(b0.soft@, 0, o));
                        assert(batch_soft_count(b0.buffer@, o) == 0);
                        assert(batch_soft_count(self.buffer@, o) == 0);
                        lemma_layers_same_shape_soft(
                            b0.layers@,
                            self.layers@,
                            l as int,
                            c as int,
                            o,
                        );
                        lemma_layers_same_shape_soft(
                            b0.layers@,
                            self.layers@,
                            l as int,
                            c + 1,
                            o,
                        );
                        lemma_layers_same_shape_soft(b0.layers@, self.layers@, 0, 0, o);
                    }
                }
        map_clause(cl)
    }

    /// One step of the header phase: the next header comment, or nothing
    /// once all ten are out.
    #[verifier::rlimit(100)]
    fn phase_header(&mut self, id: u8) -> (r: Option<GenLine>)
        requires
            old(self).wf(),
            old(self).state == LineType::Header(id),
            old(self).buffer@.len() == 0,
        ensures
            final(self).wf(),
            final(self).objs == old(self).objs,
            final(self).declared_clauses() == old(self).declared_clauses(),
            final(self).declared_lines() == old(self).declared_lines(),
            r is None ==> final(self).buffer@.len() == 0 && final(self).lines_left() == old(self).lines_left() && final(self).emitted == old(self).emitted && final(self).phase_rank() < old(self).phase_rank() && *final(self) == (MoGenerator { state: final(self).state, ..*old(self) }),
            r is Some ==> old(self).lines_left() > 0 && final(self).lines_left() == old(self).lines_left() - 1 && final(self).emitted@.lines == old(self).emitted@.lines + 1 && final(self).emitted@.clauses == old(self).emitted@.clauses && final(self).emitted@.soft == old(self).emitted@.soft,
            r matches Some(l) ==> (l matches GenLine::Comment(cm) && cm@ == old(self).header_line_spec(id)),
            r is Some ==> final(self).state == LineType::Header((id + 1) as u8) && final(self).buffer@.len() == 0,
            final(self).phase_rank() <= old(self).phase_rank(),
            r is Some ==> final(self).phase_rank() >= 5,
    {
        proof {
            old(self).lemma_left_nonneg();
        }
        let ghost b0 = *old(self);
        if id > 9 {
            self.state = LineType::LayerDesc(0);
            proof {
                assert forall|o: u8| o < self.objs implies self.n_soft_left@[o as int]
                    == self.soft_left_spec(o) by {
                    assert(b0.n_soft_left@[o as int] == b0.soft_left_spec(o));
                }
                assert(forall|o: u8| #![trigger self.soft_left_spec(o)]
                    o < self.objs ==> self.soft_left_spec(o) == b0.soft_left_spec(o));
                lemma_budget_carry(&b0, self);
            }
            None
        } else {
            let line = self.header_line(id);
            self.state = LineType::Header(id + 1);
            let ghost es = self.emitted@;
            self.emitted = Ghost(
                EmitStats {
                    lines: es.lines + 1,
                    clauses: es.clauses,
                    soft: es.soft,
                    soft_counts: es.soft_counts,
                },
            );
            proof {
                assert forall|o: u8| o < self.objs implies self.n_soft_left@[o as int]
                    == self.soft_left_spec(o) by {
                    assert(b0.n_soft_left@[o as int] == b0.soft_left_spec(o));
                }
                assert(forall|o: u8| #![trigger self.soft_left_spec(o)]
                    o < self.objs ==> self.soft_left_spec(o) == b0.soft_left_spec(o));
                lemma_budget_carry(&b0, self);
            }
            Some(GenLine::Comment(line))
        }
    }

    /// One step of the layer-description phase.
    #[verifier::rlimit(100)]
    fn phase_layer_desc(&mut self, i: u8) -> (r: Option<GenLine>)
        requires
            old(self).wf(),
            old(self).state == LineType::LayerDesc(i),
            old(self).buffer@.len() == 0,
        ensures
            final(self).wf(),
            final(self).objs == old(self).objs,
            final(self).declared_clauses() == old(self).declared_clauses(),
            final(self).declared_lines() == old(self).declared_lines(),
            r is None ==> final(self).buffer@.len() == 0 && final(self).lines_left() == old(self).lines_left() && final(self).emitted == old(self).emitted && final(self).phase_rank() < old(self).phase_rank() && *final(self) == (MoGenerator { state: final(self).state, ..*old(self) }),
            r is Some ==> old(self).lines_left() > 0 && final(self).lines_left() == old(self).lines_left() - 1 && final(self).emitted@.lines == old(self).emitted@.lines + 1 && final(self).emitted@.clauses == old(self).emitted@.clauses && final(self).emitted@.soft == old(self).emitted@.soft,
            r matches Some(l) ==> l is Comment,
            final(self).phase_rank() <= old(self).phase_rank(),
            r is Some ==> final(self).phase_rank() >= 5,
    {
        proof {
            old(self).lemma_left_nonneg();
        }
        let ghost b0 = *old(self);
        if i as usize >= self.layers.len() {
            self.state = LineType::LayerCl(0, 0);
            proof {
                assert forall|o: u8| o < self.objs implies self.n_soft_left@[o as int]
                    == self.soft_left_spec(o) by {
                    assert(b0.n_soft_left@[o as int] == b0.soft_left_spec(o));
                }
                assert(forall|o: u8| #![trigger self.soft_left_spec(o)]
                    o < self.objs ==> self.soft_left_spec(o) == b0.soft_left_spec(o));
                lemma_budget_carry(&b0, self);
            }
            None
        } else {
            let line = self.layer_desc(i);
            self.state = LineType::LayerDesc(i + 1);
            let ghost es = self.emitted@;
            self.emitted = Ghost(
                EmitStats {
                    lines: es.lines + 1,
                    clauses: es.clauses,
                    soft: es.soft,
                    soft_counts: es.soft_counts,
                },
            );
            proof {
                assert forall|o: u8| o < self.objs implies self.n_soft_left@[o as int]
                    == self.soft_left_spec(o) by {
                    assert(b0.n_soft_left@[o as int] == b0.soft_left_spec(o));
                }
                assert(forall|o: u8| #![trigger self.soft_left_spec(o)]
                    o < self.objs ==> self.soft_left_spec(o) == b0.soft_left_spec(o));
                lemma_budget_carry(&b0, self);
            }
            Some(GenLine::Comment(line))
        }
    }

    /// One step of the layer-clause phase.
    #[verifier::rlimit(100)]
    fn phase_layer(&mut self, l: u8, c: u32) -> (r: Option<GenLine>)
        requires
            old(self).wf(),
            old(self).state == LineType::LayerCl(l, c),
            old(self).buffer@.len() == 0,
        ensures
            final(self).wf(),
            final(self).objs == old(self).objs,
            final(self).declared_clauses() == old(self).declared_clauses(),
            final(self).declared_lines() == old(self).declared_lines(),
            r is None ==> final(self).buffer@.len() == 0 && final(self).lines_left() == old(self).lines_left() && final(self).emitted == old(self).emitted && (final(self).phase_rank() < old(self).phase_rank() || (final(self).phase_rank() == old(self).phase_rank() && final(self).inner_rank() < old(self).inner_rank())) && *final(self) == (MoGenerator { state: final(self).state, ..*old(self) }),
            r is Some ==> old(self).lines_left() > 0 && final(self).lines_left() == old(self).lines_left() - 1 && final(self).emitted@.lines == old(self).emitted@.lines + 1 && final(self).emitted@.clauses == old(self).emitted@.clauses + 1,
            r matches Some(l2) ==> !(l2 is Comment) && (l2 is Hard ==> final(self).emitted@.soft == old(self).emitted@.soft) && (l2 matches GenLine::Soft(_, w, o) ==> (o as int) < old(self).objs && w >= 1 && final(self).emitted@.soft == old(self).emitted@.soft.update(o as int, old(self).emitted@.soft[o as int] + w)),
            final(self).phase_rank() <= old(self).phase_rank(),
            r is Some ==> final(self).phase_rank() <= 4,
    {
        let ghost b0 = *old(self);
        if l as usize >= self.layers.len() {
            self.state = LineType::EqCl(0);
            proof {
                assert(layers_clauses_from(self.layers@, l as int, 0) == 0);
                assert forall|o: u8| o < self.objs implies self.n_soft_left@[o as int]
                    == self.soft_left_spec(o) by {
                    assert(b0.n_soft_left@[o as int] == b0.soft_left_spec(o));
                    assert(layers_soft_from(self.layers@, l as int, 0, o) == 0);
                }
                assert forall|o: u8| #![trigger self.soft_left_spec(o)]
                    o < self.objs implies self.soft_left_spec(o) == b0.soft_left_spec(o) by {
                    assert(layers_soft_from(self.layers@, l as int, 0, o) == 0);
                }
                lemma_budget_carry(&b0, self);
            }
            None
        } else if c >= self.layers[l as usize].n_clauses {
            self.state = LineType::LayerCl(l + 1, 0);
            proof {
                assert forall|o: u8| o < self.objs implies self.n_soft_left@[o as int]
                    == self.soft_left_spec(o) by {
                    assert(b0.n_soft_left@[o as int] == b0.soft_left_spec(o));
                    assert(layers_soft_from(self.layers@, l as int, c as int, o)
                        == layers_soft_from(self.layers@, l + 1, 0, o));
                }
                assert forall|o: u8| #![trigger self.soft_left_spec(o)]
                    o < self.objs implies self.soft_left_spec(o) == b0.soft_left_spec(o) by {
                    assert(layers_soft_from(self.layers@, l as int, c as int, o)
                        == layers_soft_from(self.layers@, l + 1, 0, o));
                }
                lemma_budget_carry(&b0, self);
            }
            None
        } else {
            Some(self.step_layer(l, c))
        }
    }

    /// One step of the equality-gadget phase.
    #[verifier::rlimit(100)]
    fn phase_eq(&mut self, i: u32) -> (r: Option<GenLine>)
        requires
            old(self).wf(),
            old(self).state == LineType::EqCl(i),
            old(self).buffer@.len() == 0,
        ensures
            final(self).wf(),
            final(self).objs == old(self).objs,
            final(self).declared_clauses() == old(self).declared_clauses(),
            final(self).declared_lines() == old(self).declared_lines(),
            r is None ==> final(self).buffer@.len() == 0 && final(self).lines_left() == old(self).lines_left() && final(self).emitted == old(self).emitted && final(self).phase_rank() < old(self).phase_rank() && *final(self) == (MoGenerator { state: final(self).state, ..*old(self) }),
            r is Some ==> old(self).lines_left() > 0 && final(self).lines_left() == old(self).lines_left() - 1 && final(self).emitted@.lines == old(self).emitted@.lines + 1 && final(self).emitted@.clauses == old(self).emitted@.clauses + 1 && final(self).emitted@.soft == old(self).emitted@.soft,
            r matches Some(l) ==> l is Hard,
            final(self).phase_rank() <= old(self).phase_rank(),
            r is Some ==> final(self).phase_rank() <= 4,
    {
        let ghost b0 = *old(self);
        if i >= self.eqs {
            self.state = LineType::AndCl(0);
            proof {
                assert forall|o: u8| o < self.objs implies self.n_soft_left@[o as int]
                    == self.soft_left_spec(o) by {
                    assert(b0.n_soft_left@[o as int] == b0.soft_left_spec(o));
                }
                assert(forall|o: u8| #![trigger self.soft_left_spec(o)]
                    o < self.objs ==> self.soft_left_spec(o) == b0.soft_left_spec(o));
                lemma_budget_carry(&b0, self);
            }
            None
        } else {
            Some(self.step_eq(i))
        }
    }

    /// One step of the AND-gadget phase.
    #[verifier::rlimit(100)]
    fn phase_and(&mut self, i: u32) -> (r: Option<GenLine>)
        requires
            old(self).wf(),
            old(self).state == LineType::AndCl(i),
            old(self).buffer@.len() == 0,
        ensures
            final(self).wf(),
            final(self).objs == old(self).objs,
            final(self).declared_clauses() == old(self).declared_clauses(),
            final(self).declared_lines() == old(self).declared_lines(),
            r is None ==> final(self).buffer@.len() == 0 && final(self).lines_left() == old(self).lines_left() && final(self).emitted == old(self).emitted && final(self).phase_rank() < old(self).phase_rank() && *final(self) == (MoGenerator { state: final(self).state, ..*old(self) }),
            r is Some ==> old(self).lines_left() > 0 && final(self).lines_left() == old(self).lines_left() - 1 && final(self).emitted@.lines == old(self).emitted@.lines + 1 && final(self).emitted@.clauses == old(self).emitted@.clauses + 1 && final(self).emitted@.soft == old(self).emitted@.soft,
            r matches Some(l) ==> l is Hard,
            final(self).phase_rank() <= old(self).phase_rank(),
            r is Some ==> final(self).phase_rank() <= 4,
    {
        let ghost b0 = *old(self);
        if i >= self.ands {
            self.state = LineType::Xor3Cl(0);
            proof {
                assert forall|o: u8| o < self.objs implies self.n_soft_left@[o as int]
                    == self.soft_left_spec(o) by {
                    assert(b0.n_soft_left@[o as int] == b0.soft_left_spec(o));
                }
                assert(forall|o: u8| #![trigger self.soft_left_spec(o)]
                    o < self.objs ==> self.soft_left_spec(o) == b0.soft_left_spec(o));
                lemma_budget_carry(&b0, self);
            }
            None
        } else {
            Some(self.step_and(i))
        }
    }

    /// One step of the XOR3-gadget phase.
    #[verifier::rlimit(100)]
    fn phase_xor3(&mut self, i: u32) -> (r: Option<GenLine>)
        requires
            old(self).wf(),
            old(self).state == LineType::Xor3Cl(i),
            old(self).buffer@.len() == 0,
        ensures
            final(self).wf(),
            final(self).objs == old(self).objs,
            final(self).declared_clauses() == old(self).declared_clauses(),
            final(self).declared_lines() == old(self).declared_lines(),
            r is None ==> final(self).buffer@.len() == 0 && final(self).lines_left() == old(self).lines_left() && final(self).emitted == old(self).emitted && final(self).phase_rank() < old(self).phase_rank() && *final(self) == (MoGenerator { state: final(self).state, ..*old(self) }),
            r is Some ==> old(self).lines_left() > 0 && final(self).lines_left() == old(self).lines_left() - 1 && final(self).emitted@.lines == old(self).emitted@.lines + 1 && final(self).emitted@.clauses == old(self).emitted@.clauses + 1 && final(self).emitted@.soft == old(self).emitted@.soft,
            r matches Some(l) ==> l is Hard,
            final(self).phase_rank() <= old(self).phase_rank(),
            r is Some ==> final(self).phase_rank() <= 4,
    {
        let ghost b0 = *old(self);
        if i >= self.xors3 {
            self.state = LineType::Xor4Cl(0);
            proof {
                assert forall|o: u8| o < self.objs implies self.n_soft_left@[o as int]
                    == self.soft_left_spec(o) by {
                    assert(b0.n_soft_left@[o as int] == b0.soft_left_spec(o));
                }
                assert(forall|o: u8| #![trigger self.soft_left_spec(o)]
                    o < self.objs ==> self.soft_left_spec(o) == b0.soft_left_spec(o));
                lemma_budget_carry(&b0, self);
            }
            None
        } else {
            Some(self.step_xor3(i))
        }
    }

    /// The next line of the stream: drains the batch buffer first, then
    /// advances the cursor through header comments, layer comments, layer
    /// clauses and the four gadget families, in that order. Returns `None`
    /// exactly when every declared line has been emitted.
    #[verifier::rlimit(100)]
    pub fn next(&mut self) -> (r: Option<GenLine>)
        requires
            old(self).wf(),
        ensures
            final(self).wf(),
            final(self).objs == old(self).objs,
            final(self).declared_clauses() == old(self).declared_clauses(),
            final(self).declared_lines() == old(self).declared_lines(),
            r is Some <==> old(self).lines_left() > 0,
            r is Some ==> final(self).lines_left() == old(self).lines_left() - 1 && final(self).emitted@.lines == old(self).emitted@.lines + 1,
            r is None ==> final(self).lines_left() == 0 && final(self).emitted@ == old(self).emitted@,
            final(self).phase_rank() <= old(self).phase_rank(),
            r matches Some(l) ==> (l is Comment ==> final(self).phase_rank() >= 5) && (!(l
                is Comment) ==> final(self).phase_rank() <= 4),
            (match old(self).state {
                LineType::Header(id) => (old(self).buffer@.len() == 0 && id <= 9) ==> (r matches
                    Some(l) && l matches GenLine::Comment(cm) && cm@ == old(self).header_line_spec(
                    id,
                )) && final(self).state == LineType::Header((id + 1) as u8) && final(self).buffer@.len() == 0,
                _ => true,
            }),
            r matches Some(l) ==> match l {
                GenLine::Comment(_) => final(self).emitted@.clauses == old(self).emitted@.clauses
                    && final(self).emitted@.soft == old(self).emitted@.soft,
                GenLine::Hard(_) => final(self).emitted@.clauses == old(self).emitted@.clauses + 1
                    && final(self).emitted@.soft == old(self).emitted@.soft,
                GenLine::Soft(_, w, o) => final(self).emitted@.clauses == old(self).emitted@.clauses + 1 && (o as int) < old(self).objs && w >= 1 && final(self).emitted@.soft == old(self).emitted@.soft.update(
                    o as int,
                    old(self).emitted@.soft[o as int] + w,
                ),
            },
    {
        proof {
            old(self).lemma_left_nonneg();
        }
        let ghost pre = *old(self);
        // Drain the batch buffer first.
        match self.buffer.pop() {
            Some(cl) => {
                proof {
                    assert(self.buffer@ =~= pre.buffer@.drop_last());
                    lemma_batch_weight_nonneg(self.buffer@);
                    assert(pre.buffer@.last() == cl);
                    assert(batch_weight(pre.buffer@) == batch_weight(pre.buffer@.drop_last())
                        + match cl.0 {
                        Some(t) => t.1 as int,
                        None => 0,
                    });
                    assert(forall|b: int|
                        0 <= b < self.buffer@.len() ==> self.buffer@[b] == pre.buffer@[b]);
                    assert forall|o: u8| o < self.objs implies self.n_soft_left@[o as int]
                        == self.soft_left_spec(o) by {
                        assert(pre.n_soft_left@[o as int] == pre.soft_left_spec(o));
                    }
                }
                let ghost es = self.emitted@;
                match cl.0 {
                    Some((o, w)) => {
                        proof {
                            lemma_seq_sum_int_update_add(es.soft, o as int, w as int);
                        }
                        self.emitted = Ghost(
                            EmitStats {
                                lines: es.lines + 1,
                                clauses: es.clauses + 1,
                                soft: es.soft.update(o as int, es.soft[o as int] + w),
                                soft_counts: es.soft_counts.update(
                                    o as int,
                                    es.soft_counts[o as int] + 1,
                                ),
                            },
                        );
                    },
                    None => {
                        self.emitted = Ghost(
                            EmitStats {
                        lines: es.lines + 1,
                        clauses: es.clauses + 1,
                        soft: es.soft,
                        soft_counts: es.soft_counts,
                    },
                        );
                    },
                }
                proof {
                    assert forall|o: u8| o < self.objs implies self.n_soft_left@[o as int]
                        == self.soft_left_spec(o) by {
                        assert(pre.n_soft_left@[o as int] == pre.soft_left_spec(o));
                    }
                    assert forall|o: u8| #![trigger self.soft_left_spec(o)]
                        o < self.objs implies self.emitted@.soft_counts[o as int]
                        + batch_soft_count(self.buffer@, o) + self.soft_left_spec(o)
                        == layers_soft_from(self.layers@, 0, 0, o) + soft_count_from(
                        self.soft@,
                        0,
                        o,
                    ) by {
                        assert(pre.emitted@.soft_counts[o as int] + batch_soft_count(
                            pre.buffer@,
                            o,
                        ) + pre.soft_left_spec(o) == layers_soft_from(pre.layers@, 0, 0, o)
                            + soft_count_from(pre.soft@, 0, o));
                        assert(self.soft_left_spec(o) == pre.soft_left_spec(o));
                        assert(pre.buffer@.last() == cl);
                        assert(batch_soft_count(pre.buffer@, o) == batch_soft_count(
                            pre.buffer@.drop_last(),
                            o,
                        ) + match cl.0 {
                            Some(t) => if t.0 == o {
                                1int
                            } else {
                                0int
                            },
                            None => 0int,
                        });
                    }
                }
                return Some(map_clause(cl));
            },
            None => {},
        }
        proof {
            assert(self.buffer@ == pre.buffer@);
            assert forall|o: u8| o < self.objs implies self.n_soft_left@[o as int]
                == self.soft_left_spec(o) by {
                assert(pre.n_soft_left@[o as int] == pre.soft_left_spec(o));
            }
            assert(forall|o: u8| #![trigger self.soft_left_spec(o)]
                o < self.objs ==> self.soft_left_spec(o) == pre.soft_left_spec(o));
            lemma_budget_carry(&pre, self);
            assert(self.wf());
            assert(self.lines_left() == pre.lines_left());
        }
        loop
            invariant
                self.wf(),
                self.buffer@.len() == 0,
                self.emitted == old(self).emitted,
                self.objs == old(self).objs,
                self.declared_clauses() == old(self).declared_clauses(),
                self.declared_lines() == old(self).declared_lines(),
                self.lines_left() == old(self).lines_left(),
                self.seed == old(self).seed,
                self.weight_hi == old(self).weight_hi,
                self.eqs == old(self).eqs,
                self.ands == old(self).ands,
                self.xors3 == old(self).xors3,
                self.xors4 == old(self).xors4,
                self.soft@ == old(self).soft@,
                self.layers@ == old(self).layers@,
                (match old(self).state {
                    LineType::Header(id) => id <= 9 ==> self.state == old(self).state,
                    _ => true,
                }),
                self.phase_rank() <= old(self).phase_rank(),
            decreases self.phase_rank(), self.inner_rank(),
        {
            let step = match self.state {
                LineType::Header(id) => self.phase_header(id),
                LineType::LayerDesc(i) => self.phase_layer_desc(i),
                LineType::LayerCl(l, c) => self.phase_layer(l, c),
                LineType::EqCl(i) => self.phase_eq(i),
                LineType::AndCl(i) => self.phase_and(i),
                LineType::Xor3Cl(i) => self.phase_xor3(i),
                LineType::Xor4Cl(i) => {
                    if i >= self.xors4 {
                        proof {
                            self.lemma_left_nonneg();
                            assert(soft_extra_from(
                                self.soft@,
                                self.eqs + self.ands + self.xors3 + i,
                            ) == 0);
                        }
                        return None;
                    }
                    Some(self.step_xor4(i))
                },
            };
            if let Some(line) = step {
                return Some(line);
            }
        }
    }

    /// Once the stream has ended, exactly the declared number of clause
    /// lines has been emitted, and exactly the declared number of lines.
    pub proof fn lemma_stream_complete(&self)
        requires
            self.wf(),
            self.lines_left() == 0,
        ensures
            self.emitted@.clauses == self.declared_clauses(),
            self.emitted@.lines == self.declared_lines(),
            forall|o: u8| #![trigger self.soft_budgets()[o as int]]
                o < self.objs ==> self.emitted@.soft_counts[o as int] == self.soft_budgets()[
                    o as int],
    {
        self.lemma_left_nonneg();
        assert forall|o: u8| #![trigger self.soft_budgets()[o as int]]
            o < self.objs implies self.emitted@.soft_counts[o as int] == self.soft_budgets()[
            o as int] by {
            assert(self.buffer@.len() == 0);
            assert(batch_soft_count(self.buffer@, o) == 0);
            assert(self.soft_left_spec(o) >= 0) by {
                match self.state {
                    LineType::LayerCl(l, c) => {
                        lemma_soft_count_bound(self.soft@, 0, o);
                        if (l as int) < self.layers@.len() {
                            lemma_layers_soft_bound(self.layers@, l + 1, o);
                            assert(layers_soft_from(self.layers@, l as int, c as int, o) >= 0);
                        } else {
                            assert(layers_soft_from(self.layers@, l as int, c as int, o) == 0);
                        }
                    },
                    LineType::EqCl(i) => {
                        lemma_soft_count_bound(self.soft@, i as int, o);
                    },
                    LineType::AndCl(i) => {
                        lemma_soft_count_bound(self.soft@, self.eqs + i, o);
                    },
                    LineType::Xor3Cl(i) => {
                        lemma_soft_count_bound(self.soft@, self.eqs + self.ands + i, o);
                    },
                    LineType::Xor4Cl(i) => {
                        lemma_soft_count_bound(
                            self.soft@,
                            self.eqs + self.ands + self.xors3 + i,
                            o,
                        );
                    },
                    _ => {
                        lemma_layers_soft_bound(self.layers@, 0, o);
                        lemma_soft_count_bound(self.soft@, 0, o);
                    },
                }
            }
            assert(self.soft_left_spec(o) <= self.rem_clauses()) by {
                lemma_soft_count_le_extra(self.soft@, 0, o);
                match self.state {
                    LineType::LayerCl(l, c) => {
                        lemma_layers_soft_le_clauses(self.layers@, l as int, c as int, o);
                        lemma_arity_sum_bound(self.arity@, 0);
                    },
                    LineType::EqCl(i) => {
                        lemma_soft_count_le_extra(self.soft@, i as int, o);
                        lemma_arity_sum_bound(self.arity@, 0);
                    },
                    LineType::AndCl(i) => {
                        lemma_soft_count_le_extra(self.soft@, self.eqs + i, o);
                        lemma_arity_sum_bound(self.arity@, i as int);
                    },
                    LineType::Xor3Cl(i) => {
                        lemma_soft_count_le_extra(self.soft@, self.eqs + self.ands + i, o);
                    },
                    LineType::Xor4Cl(i) => {
                        lemma_soft_count_le_extra(
                            self.soft@,
                            self.eqs + self.ands + self.xors3 + i,
                            o,
                        );
                    },
                    _ => {
                        lemma_layers_soft_le_clauses(self.layers@, 0, 0, o);
                        lemma_arity_sum_bound(self.arity@, 0);
                    },
                }
            }
            assert(self.soft_left_spec(o) == 0);
            lemma_layers_soft_bound(self.layers@, 0, o);
            lemma_soft_count_bound(self.soft@, 0, o);
            assert(self.soft_budgets()[o as int] == (layers_soft_from(self.layers@, 0, 0, o)
                + soft_count_from(self.soft@, 0, o)) as u64);
        }
    }
}

proof fn lemma_seq_sum_int_zero(n: nat)
    ensures
        seq_sum_int(Seq::new(n, |o: int| 0int)) == 0,
    decreases n,
{
    if n > 0 {
        lemma_seq_sum_int_zero((n - 1) as nat);
        assert(Seq::new(n, |o: int| 0int).drop_last() =~= Seq::new((n - 1) as nat, |o: int| 0int));
    }
}

impl MoGenerator {
    /// Builds a generator from a well-formed configuration: seeds the random
    /// source, draws the layers with their widths, spans and clause budgets,
    /// then the objective count, the gadget counts behind their zero-odds
    /// gates, the weight range, the AND arities, and the gadget softness
    /// table, and finally precomputes the per-objective soft budgets.
    #[verifier::rlimit(100)]
    pub fn new(config: &InstConfig) -> (r: MoGenerator)
        requires
            config.wf(),
        ensures
            r.wf(),
            r.state == LineType::Header(0),
            r.buffer@.len() == 0,
            r.seed == config.seed,
            r.emitted@.lines == 0,
            r.emitted@.clauses == 0,
            forall|o: int| 0 <= o < r.emitted@.soft.len() ==> r.emitted@.soft[o] == 0,
            config.layers.min <= r.layers@.len() <= config.layers.max,
            forall|i: int|
                0 <= i < r.layers@.len() ==> config.layer_width.min + 1 <= (
                #[trigger] r.layers@[i]).hi - r.layers@[i].lo <= config.layer_width.max.max + 1,
            config.objectives.min <= r.objs <= config.objectives.max,
            r.eqs == 0 || config.equalities.min <= r.eqs <= config.equalities.max,
            r.ands == 0 || config.ands.min <= r.ands <= config.ands.max,
            r.xors3 == 0 || config.xors3.min <= r.xors3 <= config.xors3.max,
            r.xors4 == 0 || config.xors4.min <= r.xors4 <= config.xors4.max,
            exists|v: int|
                0 <= v < config.max_weight@.len() && (#[trigger] config.max_weight@[v]).min
                    <= r.weight_hi <= config.max_weight@[v].max,
            forall|t: int|
                0 <= t < r.arity@.len() ==> 2 <= #[trigger] r.arity@[t] <= arity_cap(r.layers@),
            forall|i: int| 0 <= i < r.layers@.len() ==> pool_full(#[trigger] r.layers@[i]),
    {
        let mut rng = match config.seed {
            Some(sd) => Rng::from_seed(sd),
            None => Rng::from_entropy(),
        };
        // Layers: a global width cap, then per-layer widths, spans and
        // clause budgets.
        let max_width = rng.gen_range_u8(config.layer_width.max.min, config.layer_width.max.max);
        let n_layers = rng.gen_range_u8(config.layers.min, config.layers.max);
        let mut layers: Vec<Layer> = Vec::new();
        let mut idx: u8 = 0;
        while idx < n_layers
            invariant
                config.wf(),
                config.layer_width.min <= max_width,
                max_width <= config.layer_width.max.max,
                max_width <= 255,
                idx <= n_layers,
                1 <= n_layers <= 255,
                layers@.len() == idx,
                idx > 0 ==> layers@[0].lo == 0,
                forall|i: int| 0 <= i < layers@.len() ==> (#[trigger] layers@[i]).lo
                    < layers@[i].hi,
                forall|i: int| 0 < i < layers@.len() ==> (#[trigger] layers@[i]).lo == layers@[i
                    - 1].hi,
                forall|i: int| 0 <= i < layers@.len() ==> 3 <= (#[trigger] layers@[i]).hi
                    - layers@[i].lo <= 256,
                forall|i: int|
                    0 <= i < layers@.len() ==> config.layer_width.min + 1 <= (
                    #[trigger] layers@[i]).hi - layers@[i].lo <= config.layer_width.max.max + 1,
                forall|i: int| 0 <= i < layers@.len() ==> pool_full(#[trigger] layers@[i]),
                forall|i: int, j: int| 0 <= i <= j < layers@.len() ==> layers@[i].hi
                    <= layers@[j].hi,
                forall|i: int| 0 <= i < layers@.len() ==> (#[trigger] layers@[i]).n_clauses
                    <= 0x20000,
                forall|i: int| 0 <= i < layers@.len() ==> (#[trigger] layers@[i]).soft == 0,
                forall|i: int| 0 <= i < layers@.len() ==> (#[trigger] layers@[i]).hi <= 256 * (i
                    + 1),
                forall|i: int, t: int|
                    0 <= i < layers@.len() && 0 <= t < layers@[i].unused@.len() ==> layers@[i].lo
                        <= (#[trigger] layers@[i].unused@[t]).var < layers@[i].hi,
            decreases n_layers - idx,
        {
            let width = rng.gen_range_u8(config.layer_width.min, max_width);
            let lo: u32 = if idx > 0 {
                layers[(idx - 1) as usize].hi
            } else {
                0
            };
            let hi: u32 = lo + width as u32 + 1;
            let width_plus_last: u32 = if idx > 0 {
                width as u32 + (layers[(idx - 1) as usize].hi - layers[(idx - 1) as usize].lo)
            } else {
                width as u32
            };
            let sample = rng.gen_range_u8(config.layer_clauses.min, config.layer_clauses.max);
            proof {
                assert(width_plus_last <= 511);
                assert(sample as u32 * width_plus_last <= 255 * 511) by (nonlinear_arith)
                    requires
                        sample <= 255,
                        width_plus_last <= 511,
                ;
            }
            let n_cl: u32 = (sample as u32 * width_plus_last) / (config.layer_clauses.div as u32);
            proof {
                assert(n_cl <= 0x20000);
            }
            // The objective count is drawn only after the layers, so no
            // layer can be flagged soft here: every layer clause is hard.
            let soft: u8 = 0;
            let mut unused: Vec<Lit> = Vec::new();
            let mut v: u32 = lo;
            while v < hi
                invariant
                    lo <= v <= hi,
                    unused@.len() == 2 * (v - lo),
                    forall|t: int|
                        0 <= t < unused@.len() ==> lo <= (#[trigger] unused@[t]).var < v,
                    forall|v2: int|
                        lo <= v2 < v ==> (#[trigger] unused@[2 * (v2 - lo)]) == (Lit {
                            var: v2 as u32,
                            neg: false,
                        }) && unused@[2 * (v2 - lo) + 1] == (Lit { var: v2 as u32, neg: true }),
                decreases hi - v,
            {
                unused.push(Lit::new(v, false));
                unused.push(Lit::new(v, true));
                v += 1;
            }
            let ghost layers0 = layers@;
            layers.push(Layer { lo, hi, n_clauses: n_cl, soft, unused });
            proof {
                assert(layers@.drop_last() =~= layers0);
                assert(forall|i: int| 0 <= i < layers0.len() ==> layers@[i] == layers0[i]);
                assert(pool_full(layers@.last()));
                assert forall|i: int| 0 <= i < layers@.len() implies pool_full(
                    #[trigger] layers@[i],
                ) by {
                    if i < layers0.len() {
                        assert(layers@[i] == layers0[i]);
                    } else {
                        assert(layers@[i] == layers@.last());
                    }
                }
            }
            idx += 1;
        }
        // Objectives, then gadget counts behind their zero-odds gates.
        let objs = rng.gen_range_u8(config.objectives.min, config.objectives.max);
        let p_eq = config.eqs_nonzero_prob();
        let eqs: u32 = if rng.gen_bool(p_eq.num, p_eq.den) {
            rng.gen_range_u8(config.equalities.min, config.equalities.max) as u32
        } else {
            0
        };
        let p_and = config.ands_nonzero_prob();
        let ands: u32 = if rng.gen_bool(p_and.num, p_and.den) {
            rng.gen_range_u8(config.ands.min, config.ands.max) as u32
        } else {
            0
        };
        let p_x3 = config.xors3_nonzero_prob();
        let xors3: u32 = if rng.gen_bool(p_x3.num, p_x3.den) {
            rng.gen_range_u8(config.xors3.min, config.xors3.max) as u32
        } else {
            0
        };
        let p_x4 = config.xors4_nonzero_prob();
        let xors4: u32 = if rng.gen_bool(p_x4.num, p_x4.den) {
            rng.gen_range_u8(config.xors4.min, config.xors4.max) as u32
        } else {
            0
        };
        // One weight-range variant, drawn uniformly; weights come from
        // `1..upper`.
        let vi = rng.gen_range_usize(0, config.max_weight.len() - 1);
        let upper = rng.gen_range_u64(config.max_weight[vi].min, config.max_weight[vi].max);
        // AND arities, bounded by the width of the last two layers.
        let last_hi = layers[layers.len() - 1].hi;
        let wpl2: u32 = if layers.len() > 1 {
            (layers[layers.len() - 1].hi - layers[layers.len() - 1].lo) + (layers[layers.len()
                - 2].hi - layers[layers.len() - 2].lo)
        } else {
            layers[0].hi - layers[0].lo
        };
        let ma0: u32 = if 20 <= wpl2 / 2 {
            20
        } else {
            wpl2 / 2
        };
        let max_arity: u32 = if ma0 < 2 {
            2
        } else {
            ma0
        };
        proof {
            assert(wpl2 <= last_hi);
            assert(wpl2 >= 3);
            assert(wpl2 / 2 + 1 <= wpl2);
            assert(max_arity + 1 <= last_hi);
        }
        let mut arity: Vec<u32> = Vec::new();
        let ghost cap = max_arity as int;
        let mut t: u32 = 0;
        while t < ands
            invariant
                2 <= max_arity <= 20,
                max_arity + 1 <= last_hi,
                cap == max_arity,
                t <= ands,
                arity@.len() == t,
                forall|i: int| 0 <= i < arity@.len() ==> 2 <= (#[trigger] arity@[i]) <= 20,
                forall|i: int| 0 <= i < arity@.len() ==> (#[trigger] arity@[i]) + 1 <= last_hi,
                forall|i: int| 0 <= i < arity@.len() ==> (#[trigger] arity@[i]) <= cap,
            decreases ands - t,
        {
            arity.push(rng.gen_range_u32(2, max_arity));
            t += 1;
        }
        // Gadget softness: at one-in-ten odds everything is soft, otherwise
        // each gadget at one-in-five odds; a soft gadget picks an objective
        // uniformly.
        let total: u32 = eqs + ands + xors3 + xors4;
        let mut soft: Vec<u8> = Vec::new();
        let mut t: u32 = 0;
        while t < total
            invariant
                t <= total,
                soft@.len() == t,
                forall|i: int| 0 <= i < soft@.len() ==> (#[trigger] soft@[i]) == 0,
            decreases total - t,
        {
            soft.push(0);
            t += 1;
        }
        if objs > 0 {
            let all_soft = rng.gen_bool(1, 10);
            let mut t: usize = 0;
            while t < soft.len()
                invariant
                    objs > 0,
                    t <= soft@.len(),
                    soft@.len() == total,
                    forall|i: int| 0 <= i < soft@.len() ==> (#[trigger] soft@[i]) <= objs,
                decreases soft@.len() - t,
            {
                if all_soft || rng.gen_bool(1, 5) {
                    let v = rng.gen_range_u8(1, objs);
                    let rr = &mut soft[t];
                    *rr = v;
                }
                t += 1;
            }
        }
        let next_free_var = last_hi;
        let mut g = MoGenerator {
            rng,
            seed: config.seed,
            objs,
            layers,
            arity,
            soft,
            eqs,
            ands,
            xors3,
            xors4,
            n_soft_left: Vec::new(),
            soft_left_total: 0,
            weight_hi: upper,
            weight_sum: 0,
            state: Default::default(),
            next_free_var,
            buffer: Vec::new(),
            emitted: Ghost(
                EmitStats {
                    lines: 0,
                    clauses: 0,
                    soft: Seq::new(objs as nat, |o: int| 0int),
                    soft_counts: Seq::new(objs as nat, |o: int| 0int),
                },
            ),
        };
        proof {
            assert(g.wf_static());
        }
        let budgets = g.n_softs();
        proof {
            assert(budgets@.take(0) =~= Seq::<u64>::empty());
            assert(seq_sum_u64(Seq::<u64>::empty()) == 0);
        }
        let mut total64: u64 = 0;
        let mut k: usize = 0;
        while k < budgets.len()
            invariant
                k <= budgets@.len(),
                budgets@.len() <= 255,
                total64 == seq_sum_u64(budgets@.take(k as int)),
                forall|o: int| 0 <= o < budgets@.len() ==> #[trigger] budgets@[o] <= 33424380,
                total64 <= 33424380 * (k as int),
            decreases budgets@.len() - k,
        {
            proof {
                assert(budgets@.take(k + 1).drop_last() =~= budgets@.take(k as int));
                assert(budgets@.take(k + 1).last() == budgets@[k as int]);
                assert(budgets@[k as int] <= 33424380);
                assert(33424380 * ((k as int) + 1) == 33424380 * (k as int) + 33424380) by (nonlinear_arith);
                assert(33424380 * (k as int) <= 33424380 * 255) by (nonlinear_arith)
                    requires
                        0 <= k < 255,
                ;
            }
            total64 = total64 + budgets[k];
            k += 1;
        }
        proof {
            assert(budgets@.take(k as int) =~= budgets@);
        }
        let ghost budv = budgets@;
        g.n_soft_left = budgets;
        g.soft_left_total = total64;
        proof {
            lemma_seq_sum_int_zero(g.objs as nat);
            assert(batch_weight(g.buffer@) == 0);
            assert(0 <= vi < config.max_weight@.len() && config.max_weight@[vi as int].min
                <= g.weight_hi <= config.max_weight@[vi as int].max);
            assert(arity_cap(g.layers@) == max_arity) by {
                assert(g.layers@.last() == g.layers@[g.layers@.len() - 1]);
            }
            assert forall|o: u8| o < g.objs implies g.n_soft_left@[o as int] == g.soft_left_spec(
                o,
            ) by {
                assert(budv[o as int] == layers_soft_from(g.layers@, 0, 0, o) + soft_count_from(
                    g.soft@,
                    0,
                    o,
                ));
            }
            assert forall|o: u8| #![trigger g.soft_left_spec(o)]
                o < g.objs implies g.emitted@.soft_counts[o as int] + batch_soft_count(
                g.buffer@,
                o,
            ) + g.soft_left_spec(o) == layers_soft_from(g.layers@, 0, 0, o) + soft_count_from(
                g.soft@,
                0,
                o,
            ) by {
                assert(g.emitted@.soft_counts[o as int] == 0);
                assert(batch_soft_count(g.buffer@, o) == 0);
            }
            assert(g.wf());
        }
        g
    }
}

/// The decimal digit character of `n` in `0..10`.
pub open spec fn dec_digit(n: int) -> char {
    if n == 0 {
        '0'
    } else if n == 1 {
        '1'
    } else if n == 2 {
        '2'
    } else if n == 3 {
        '3'
    } else if n == 4 {
        '4'
    } else if n == 5 {
        '5'
    } else if n == 6 {
        '6'
    } else if n == 7 {
        '7'
    } else if n == 8 {
        '8'
    } else {
        '9'
    }
}

/// The decimal notation of a non-negative number.
pub open spec fn dec_spec(n: int) -> Seq<char>
    decreases n,
{
    if n < 10 {
        seq![dec_digit(n)]
    } else {
        dec_spec(n / 10).push(dec_digit(n % 10))
    }
}

/// The decimal notations of a list, comma-separated.
pub open spec fn dec_list_spec(s: Seq<u64>) -> Seq<char>
    decreases s.len(),
{
    if s.len() == 0 {
        Seq::empty()
    } else if s.len() == 1 {
        dec_spec(s[0] as int)
    } else {
        dec_list_spec(s.drop_last()) + ", "@ + dec_spec(s.last() as int)
    }
}

fn digit_str(d: u64) -> (r: &'static str)
    requires
        d < 10,
    ensures
        r@ == seq![dec_digit(d as int)],
{
    let r: &'static str = if d == 0 {
        proof {
            reveal_strlit("0");
        }
        "0"
    } else if d == 1 {
        proof {
            reveal_strlit("1");
        }
        "1"
    } else if d == 2 {
        proof {
            reveal_strlit("2");
        }
        "2"
    } else if d == 3 {
        proof {
            reveal_strlit("3");
        }
        "3"
    } else if d == 4 {
        proof {
            reveal_strlit("4");
        }
        "4"
    } else if d == 5 {
        proof {
            reveal_strlit("5");
        }
        "5"
    } else if d == 6 {
        proof {
            reveal_strlit("6");
        }
        "6"
    } else if d == 7 {
        proof {
            reveal_strlit("7");
        }
        "7"
    } else if d == 8 {
        proof {
            reveal_strlit("8");
        }
        "8"
    } else {
        proof {
            reveal_strlit("9");
        }
        "9"
    };
    proof {
        assert(r@ =~= seq![dec_digit(d as int)]);
    }
    r
}

/// Writes a number in decimal.
pub fn u64_string(n: u64) -> (r: String)
    ensures
        r@ == dec_spec(n as int),
    decreases n,
{
    if n < 10 {
        String::from_str(digit_str(n))
    } else {
        let mut s = u64_string(n / 10);
        s.append(digit_str(n % 10));
        proof {
            assert(s@ =~= dec_spec(n as int));
        }
        s
    }
}

/// Writes a list of numbers as `[a, b, c]` does, without the brackets.
pub fn u64_list_string(v: &Vec<u64>) -> (r: String)
    ensures
        r@ == dec_list_spec(v@),
{
    let mut s = String::new();
    let mut i: usize = 0;
    while i < v.len()
        invariant
            i <= v@.len(),
            s@ == dec_list_spec(v@.take(i as int)),
        decreases v@.len() - i,
    {
        if i > 0 {
            proof {
                reveal_strlit(", ");
            }
            s.append(", ");
        }
        let d = u64_string(v[i]);
        s.append(d.as_str());
        proof {
            assert(v@.take(i + 1).drop_last() =~= v@.take(i as int));
            assert(v@.take(i + 1).last() == v@[i as int]);
            if i > 0 {
                assert(s@ =~= dec_list_spec(v@.take(i + 1)));
            } else {
                assert(v@.take(1).len() == 1);
                assert(s@ =~= dec_list_spec(v@.take(1)));
            }
        }
        i += 1;
    }
    proof {
        assert(v@.take(i as int) =~= v@);
    }
    s
}

/// The literal with the opposite polarity.
pub open spec fn lit_neg(l: Lit) -> Lit {
    Lit { var: l.var, neg: !l.neg }
}

/// Variable `v` occurs in the clause.
pub open spec fn var_used(cl: Seq<Lit>, v: u32) -> bool {
    exists|t: int| 0 <= t < cl.len() && cl[t].var == v
}

fn var_in_clause(cl: &Clause, v: u32) -> (r: bool)
    ensures
        r == var_used(cl.lits@, v),
{
    let mut t: usize = 0;
    while t < cl.lits.len()
        invariant
            t <= cl.lits@.len(),
            forall|t2: int| 0 <= t2 < t ==> cl.lits@[t2].var != v,
        decreases cl.lits@.len() - t,
    {
        if cl.lits[t].var == v {
            assert(var_used(cl.lits@, v));
            return true;
        }
        t += 1;
    }
    false
}

fn clause1(a: Lit) -> (r: Clause)
    ensures
        r.lits@ == seq![a],
{
    let mut lits: Vec<Lit> = Vec::new();
    lits.push(a);
    proof {
        assert(lits@ =~= seq![a]);
    }
    Clause { lits }
}

fn clause2(a: Lit, b: Lit) -> (r: Clause)
    ensures
        r.lits@ == seq![a, b],
{
    let mut lits: Vec<Lit> = Vec::new();
    lits.push(a);
    lits.push(b);
    proof {
        assert(lits@ =~= seq![a, b]);
    }
    Clause { lits }
}

fn clause3(a: Lit, b: Lit, c: Lit) -> (r: Clause)
    ensures
        r.lits@ == seq![a, b, c],
{
    let mut lits: Vec<Lit> = Vec::new();
    lits.push(a);
    lits.push(b);
    lits.push(c);
    proof {
        assert(lits@ =~= seq![a, b, c]);
    }
    Clause { lits }
}

fn clause4(a: Lit, b: Lit, c: Lit, d: Lit) -> (r: Clause)
    ensures
        r.lits@ == seq![a, b, c, d],
{
    let mut lits: Vec<Lit> = Vec::new();
    lits.push(a);
    lits.push(b);
    lits.push(c);
    lits.push(d);
    proof {
        assert(lits@ =~= seq![a, b, c, d]);
    }
    Clause { lits }
}

fn clause5(a: Lit, b: Lit, c: Lit, d: Lit, e: Lit) -> (r: Clause)
    ensures
        r.lits@ == seq![a, b, c, d, e],
{
    let mut lits: Vec<Lit> = Vec::new();
    lits.push(a);
    lits.push(b);
    lits.push(c);
    lits.push(d);
    lits.push(e);
    proof {
        assert(lits@ =~= seq![a, b, c, d, e]);
    }
    Clause { lits }
}

fn clause_copy(cl: &Clause) -> (r: Clause)
    ensures
        r.lits@ == cl.lits@,
{
    let mut lits: Vec<Lit> = Vec::new();
    let mut t: usize = 0;
    while t < cl.lits.len()
        invariant
            t <= cl.lits@.len(),
            lits@ == cl.lits@.take(t as int),
        decreases cl.lits@.len() - t,
    {
        lits.push(cl.lits[t]);
        proof {
            assert(cl.lits@.take(t + 1) =~= cl.lits@.take(t as int).push(cl.lits@[t as int]));
        }
        t += 1;
    }
    proof {
        assert(cl.lits@.take(t as int) =~= cl.lits@);
    }
    Clause { lits }
}

/// A clause of fewer than `hi` distinct variables below `hi` leaves some
/// variable below `hi` unused.
proof fn lemma_fresh_var_exists(cl: Seq<Lit>, hi: u32)
    requires
        no_dup_vars(cl),
        forall|t: int| 0 <= t < cl.len() ==> (#[trigger] cl[t]).var < hi,
        cl.len() < hi,
    ensures
        exists|v: u32| v < hi && !var_used(cl, v),
{
    let vars = cl.map_values(|l: Lit| l.var as int);
    assert(vars.no_duplicates()) by {
        assert(forall|i: int, j: int|
            0 <= i < vars.len() && 0 <= j < vars.len() && i != j ==> vars[i] != vars[j]);
    }
    vars.unique_seq_to_set();
    let full = vstd::set_lib::set_int_range(0, hi as int);
    vstd::set_lib::lemma_int_range(0, hi as int);
    if !(exists|v: u32| v < hi && !var_used(cl, v)) {
        assert forall|v: int| full.contains(v) implies vars.to_set().contains(v) by {
            assert(var_used(cl, v as u32));
            let t = choose|t: int| 0 <= t < cl.len() && cl[t].var == v as u32;
            assert(vars[t] == v);
        }
        vstd::set_lib::lemma_len_subset(full, vars.to_set());
        assert(false);
    }
}

/// The smallest variable below `hi` that the clause does not use.
fn fresh_var_below(cl: &Clause, hi: u32) -> (v: u32)
    requires
        no_dup_vars(cl.lits@),
        forall|t: int| 0 <= t < cl.lits@.len() ==> (#[trigger] cl.lits@[t]).var < hi,
        cl.lits@.len() < hi,
    ensures
        v < hi,
        !var_used(cl.lits@, v),
{
    let mut v: u32 = 0;
    while v < hi
        invariant
            v <= hi,
            forall|v2: u32| v2 < v ==> var_used(cl.lits@, v2),
        decreases hi - v,
    {
        if !var_in_clause(cl, v) {
            return v;
        }
        v += 1;
    }
    proof {
        lemma_fresh_var_exists(cl.lits@, hi);
    }
    0
}

/// Two layer sequences with the same ranges, budgets and soft flags; only
/// the pools may differ.
/// A layer pool that still holds both polarities of every variable of the
/// layer's range, in range order.
pub open spec fn pool_full(layer: Layer) -> bool {
    &&& layer.unused@.len() == 2 * (layer.hi - layer.lo)
    &&& forall|v: int|
        layer.lo <= v < layer.hi ==> (#[trigger] layer.unused@[2 * (v - layer.lo)]) == (Lit {
            var: v as u32,
            neg: false,
        }) && layer.unused@[2 * (v - layer.lo) + 1] == (Lit { var: v as u32, neg: true })
}

/// The largest AND arity the layers admit: half the combined width of the
/// last two layers, capped at twenty, and never below two.
pub open spec fn arity_cap(layers: Seq<Layer>) -> int {
    let w = if layers.len() > 1 {
        (layers.last().hi - layers.last().lo) + (layers[layers.len() - 2].hi - layers[layers.len()
            - 2].lo)
    } else {
        layers[0].hi - layers[0].lo
    };
    let m = if 20 <= w / 2 {
        20int
    } else {
        w / 2
    };
    if m < 2 {
        2int
    } else {
        m
    }
}

/// Every pool of `b` holds only literals the same pool of `a` already
/// held, and never more of them: drawing from a pool consumes it.
pub open spec fn pools_shrunk(a: Seq<Layer>, b: Seq<Layer>) -> bool {
    &&& a.len() == b.len()
    &&& forall|i: int| 0 <= i < a.len() ==> (#[trigger] b[i]).unused@.len() <= a[i].unused@.len()
    &&& forall|i: int, t: int|
        0 <= i < a.len() && 0 <= t < b[i].unused@.len() ==> a[i].unused@.contains(
            #[trigger] b[i].unused@[t],
        )
}

proof fn lemma_pools_shrunk_trans(a: Seq<Layer>, b: Seq<Layer>, c: Seq<Layer>)
    requires
        pools_shrunk(a, b),
        pools_shrunk(b, c),
    ensures
        pools_shrunk(a, c),
{
    assert forall|i: int, t: int|
        0 <= i < a.len() && 0 <= t < c[i].unused@.len() implies a[i].unused@.contains(
        #[trigger] c[i].unused@[t],
    ) by {
        assert(b[i].unused@.contains(c[i].unused@[t]));
        let u = choose|u: int| 0 <= u < b[i].unused@.len() && b[i].unused@[u] == c[i].unused@[t];
        assert(a[i].unused@.contains(b[i].unused@[u]));
    }
}

pub open spec fn layers_same_shape(a: Seq<Layer>, b: Seq<Layer>) -> bool {
    &&& a.len() == b.len()
    &&& forall|i: int|
        0 <= i < a.len() ==> (#[trigger] b[i]).lo == a[i].lo && b[i].hi == a[i].hi
            && b[i].n_clauses == a[i].n_clauses && b[i].soft == a[i].soft
}

proof fn lemma_layers_same_shape_clauses(a: Seq<Layer>, b: Seq<Layer>, l: int, c: int)
    requires
        layers_same_shape(a, b),
    ensures
        layers_clauses_from(a, l, c) == layers_clauses_from(b, l, c),
    decreases a.len() - l,
{
    if 0 <= l < a.len() {
        lemma_layers_same_shape_clauses(a, b, l + 1, 0);
    }
}

proof fn lemma_layers_same_shape_soft(a: Seq<Layer>, b: Seq<Layer>, l: int, c: int, o: u8)
    requires
        layers_same_shape(a, b),
    ensures
        layers_soft_from(a, l, c, o) == layers_soft_from(b, l, c, o),
    decreases a.len() - l,
{
    if 0 <= l < a.len() {
        lemma_layers_same_shape_soft(a, b, l + 1, 0, o);
    }
}

proof fn lemma_layers_clauses_bound(layers: Seq<Layer>, l: int)
    requires
        0 <= l <= layers.len(),
        forall|i: int| 0 <= i < layers.len() ==> #[trigger] layers[i].n_clauses <= 0x20000,
    ensures
        0 <= layers_clauses_from(layers, l, 0) <= 0x20000 * (layers.len() - l),
    decreases layers.len() - l,
{
    if l < layers.len() {
        lemma_layers_clauses_bound(layers, l + 1);
    }
}

proof fn lemma_layers_soft_bound(layers: Seq<Layer>, l: int, o: u8)
    requires
        0 <= l <= layers.len(),
        forall|i: int| 0 <= i < layers.len() ==> #[trigger] layers[i].n_clauses <= 0x20000,
    ensures
        0 <= layers_soft_from(layers, l, 0, o) <= 0x20000 * (layers.len() - l),
    decreases layers.len() - l,
{
    if l < layers.len() {
        lemma_layers_soft_bound(layers, l + 1, o);
    }
}

proof fn lemma_arity_sum_bound(arity: Seq<u32>, t: int)
    requires
        0 <= t <= arity.len(),
        forall|i: int| 0 <= i < arity.len() ==> 2 <= #[trigger] arity[i] <= 20,
    ensures
        0 <= arity_sum_from(arity, t) <= 21 * (arity.len() - t),
    decreases arity.len() - t,
{
    if t < arity.len() {
        lemma_arity_sum_bound(arity, t + 1);
    }
}

proof fn lemma_soft_extra_bound(soft: Seq<u8>, t: int)
    requires
        0 <= t <= soft.len(),
    ensures
        0 <= soft_extra_from(soft, t) <= soft.len() - t,
    decreases soft.len() - t,
{
    if t < soft.len() {
        lemma_soft_extra_bound(soft, t + 1);
    }
}

proof fn lemma_layers_soft_le_clauses(layers: Seq<Layer>, l: int, c: int, o: u8)
    requires
        0 <= l,
        l < layers.len() ==> 0 <= c <= layers[l].n_clauses,
    ensures
        0 <= layers_soft_from(layers, l, c, o) <= layers_clauses_from(layers, l, c),
    decreases layers.len() - l,
{
    if l < layers.len() {
        lemma_layers_soft_le_clauses(layers, l + 1, 0, o);
    }
}

proof fn lemma_soft_count_le_extra(soft: Seq<u8>, t: int, o: u8)
    ensures
        soft_count_from(soft, t, o) <= soft_extra_from(soft, t),
    decreases soft.len() - t,
{
    if 0 <= t < soft.len() {
        lemma_soft_count_le_extra(soft, t + 1, o);
    }
}

proof fn lemma_soft_count_bound(soft: Seq<u8>, t: int, o: u8)
    requires
        0 <= t <= soft.len(),
    ensures
        0 <= soft_count_from(soft, t, o) <= soft.len() - t,
    decreases soft.len() - t,
{
    if t < soft.len() {
        lemma_soft_count_bound(soft, t + 1, o);
    }
}

/// The clause lines (hard or soft) of a stream.
pub open spec fn count_clause_lines(lines: Seq<GenLine>) -> int
    decreases lines.len(),
{
    if lines.len() == 0 {
        0
    } else {
        count_clause_lines(lines.drop_last()) + match lines.last() {
            GenLine::Comment(_) => 0int,
            GenLine::Hard(_) => 1int,
            GenLine::Soft(_, _, _) => 1int,
        }
    }
}

/// The total weight of the soft clause lines of objective `o` in a stream.
pub open spec fn line_soft_sum(lines: Seq<GenLine>, o: int) -> int
    decreases lines.len(),
{
    if lines.len() == 0 {
        0
    } else {
        line_soft_sum(lines.drop_last(), o) + match lines.last() {
            GenLine::Soft(_, w, o2) => if o2 == o {
                w as int
            } else {
                0int
            },
            _ => 0int,
        }
    }
}

/// Runs a generator built from the configuration to completion and collects
/// its whole stream. The header comment declaring the clause count — the
/// fifth line — names exactly the number of clause lines the stream holds,
/// and for every objective the soft weights on the stream sum to at most
/// the cost ceiling.
#[verifier::rlimit(100)]
pub fn generate_all(config: &InstConfig) -> (out: Vec<GenLine>)
    requires
        config.wf(),
    ensures
        out@.len() >= 10,
        (out@[4] matches GenLine::Comment(cm) && cm@ == dec_spec(count_clause_lines(out@))
            + " clauses"@),
        forall|o: int| #![trigger line_soft_sum(out@, o)] line_soft_sum(out@, o)
            <= 0x7fff_ffff_ffff_ffff,
        forall|i: int| 0 <= i < 10 ==> (#[trigger] out@[i]) is Comment,
        forall|i: int, j: int|
            0 <= i < j < out@.len() && !((#[trigger] out@[i]) is Comment) ==> !((
            #[trigger] out@[j]) is Comment),
        config.objectives.max == 0 ==> forall|i: int| 0 <= i < out@.len() ==> !((
        #[trigger] out@[i]) is Soft),
{
    let mut g = MoGenerator::new(config);
    let ghost d0 = g.declared_clauses();
    let mut out: Vec<GenLine> = Vec::new();
    let mut going = true;
    while going
        invariant
            g.wf(),
            g.declared_clauses() == d0,
            out@.len() == g.emitted@.lines,
            count_clause_lines(out@) == g.emitted@.clauses,
            g.emitted@.soft.len() == g.objs,
            forall|o: int| #![trigger line_soft_sum(out@, o)] line_soft_sum(out@, o) == (if 0 <= o
                < g.emitted@.soft.len() {
                g.emitted@.soft[o]
            } else {
                0
            }),
            out@.len() < 10 ==> g.state == LineType::Header(out@.len() as u8) && g.buffer@.len()
                == 0,
            g.objs <= config.objectives.max,
            forall|i: int|
                0 <= i < out@.len() ==> ((#[trigger] out@[i]) matches GenLine::Soft(_, _, o)
                    ==> (o as int) < g.objs),
            forall|i: int| 0 <= i < out@.len() && i < 10 ==> (#[trigger] out@[i]) is Comment,
            forall|i: int, j: int|
                0 <= i < j < out@.len() && !((#[trigger] out@[i]) is Comment) ==> !((
                #[trigger] out@[j]) is Comment),
            (exists|i: int| 0 <= i < out@.len() && !((#[trigger] out@[i]) is Comment))
                ==> g.phase_rank() <= 4,
            out@.len() >= 5 ==> (out@[4] matches GenLine::Comment(cm) && cm@ == dec_spec(d0)
                + " clauses"@),
            !going ==> g.lines_left() == 0,
        decreases g.lines_left(), (if going {
            1int
        } else {
            0int
        }),
    {
        let ghost g_before = g;
        let ghost out_before = out@;
        match g.next() {
            Some(l) => {
                out.push(l);
                proof {
                    assert(out@.drop_last() =~= out_before);
                    assert(out@.last() == l);
                    assert forall|o: int| line_soft_sum(out@, o) == (if 0 <= o
                        < g.emitted@.soft.len() {
                        g.emitted@.soft[o]
                    } else {
                        0
                    }) by {
                        assert(line_soft_sum(out_before, o) == (if 0 <= o
                            < g_before.emitted@.soft.len() {
                            g_before.emitted@.soft[o]
                        } else {
                            0
                        }));
                    }
                    if out_before.len() == 4 {
                        assert(out@[4] == l);
                    }
                    if out_before.len() >= 5 {
                        assert(out@[4] == out_before[4]);
                    }
                    assert(forall|i: int| 0 <= i < out_before.len() ==> out@[i] == out_before[i]);
                    if l is Comment {
                        assert(g.phase_rank() >= 5);
                        assert forall|i: int|
                            0 <= i < out@.len() implies (#[trigger] out@[i]) is Comment by {
                            if i < out_before.len() && !(out_before[i] is Comment) {
                                assert(g_before.phase_rank() <= 4);
                                assert(false);
                            }
                        }
                    } else {
                        assert(g.phase_rank() <= 4);
                    }
                }
            },
            None => {
                going = false;
            },
        }
    }
    proof {
        g.lemma_stream_complete();
        g.lemma_left_nonneg();
        assert(g.declared_lines() >= 10);
        assert forall|o: int| line_soft_sum(out@, o) <= 0x7fff_ffff_ffff_ffff by {
            if 0 <= o < g.emitted@.soft.len() {
                g.lemma_soft_sums_bounded(o);
            }
        }
    }
    out
}

} // verus!
