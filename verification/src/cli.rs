//! Command-line-facing logic: the instance file formats and the inference of
//! a format from a path's extensions.

use vstd::prelude::*;

verus! {

/// The file format of an instance input.
#[derive(Debug, Copy, Clone, PartialEq, Eq, Structural)]
pub enum FileFormat {
    /// Infer the file format from the file extension. `mcnf`, `bicnf`,
    /// `cnf`, `wcnf` or `dimacs` are all interpreted as DIMACS files and
    /// `opb` as an OPB file. All file extensions can also be prepended with
    /// `bz2`, `gz` or `xz` if compression is used.
    Infer,
    /// A DIMACS MCNF file.
    Dimacs,
    /// A multi-objective OPB file.
    Opb,
}

/// An extension that marks a compressed file.
pub open spec fn is_compression_ext(e: Seq<char>) -> bool {
    e == "gz"@ || e == "bz2"@ || e == "xz"@
}

/// An extension of the DIMACS family.
pub open spec fn is_dimacs_ext(e: Seq<char>) -> bool {
    e == "mcnf"@ || e == "bicnf"@ || e == "wcnf"@ || e == "cnf"@ || e == "dimacs"@
}

/// The OPB extension.
pub open spec fn is_opb_ext(e: Seq<char>) -> bool {
    e == "opb"@
}

/// The extension that decides the format: the inner one when the outer one
/// only marks compression.
pub open spec fn effective_ext(ext: Seq<char>, inner: Option<Seq<char>>) -> Option<Seq<char>> {
    if is_compression_ext(ext) {
        inner
    } else {
        Some(ext)
    }
}

fn chars_eq_str(e: &Vec<char>, s: &str) -> (r: bool)
    ensures
        r == (e@ == s@),
{
    let n = s.unicode_len();
    if e.len() != n {
        return false;
    }
    let mut i: usize = 0;
    while i < n
        invariant
            i <= n,
            n == s@.len(),
            e@.len() == n,
            forall|j: int| 0 <= j < i ==> e@[j] == s@[j],
        decreases n - i,
    {
        if e[i] != s.get_char(i) {
            return false;
        }
        i += 1;
    }
    proof {
        assert(e@ =~= s@);
    }
    true
}

fn is_compression(e: &Vec<char>) -> (r: bool)
    ensures
        r == is_compression_ext(e@),
{
    chars_eq_str(e, "gz") || chars_eq_str(e, "bz2") || chars_eq_str(e, "xz")
}

fn is_dimacs(e: &Vec<char>) -> (r: bool)
    ensures
        r == is_dimacs_ext(e@),
{
    chars_eq_str(e, "mcnf") || chars_eq_str(e, "bicnf") || chars_eq_str(e, "wcnf") || chars_eq_str(
        e,
        "cnf",
    ) || chars_eq_str(e, "dimacs")
}

/// Decides the file format from a path's outermost extension and, where
/// that one only marks compression, the extension under it.
pub fn infer_format(ext: &Vec<char>, inner: Option<&Vec<char>>) -> (r: Result<
    FileFormat,
    &'static str,
>)
    ensures
        ({
            let eff = effective_ext(ext@, match inner {
                Some(e2) => Some(e2@),
                None => None,
            });
            match eff {
                Some(e) => if is_dimacs_ext(e) {
                    r == Ok::<FileFormat, &'static str>(FileFormat::Dimacs)
                } else if is_opb_ext(e) {
                    r == Ok::<FileFormat, &'static str>(FileFormat::Opb)
                } else {
                    r matches Err(m) && m@ == "unknown file extension"@
                },
                None => r matches Err(m) && m@ == "no file extension"@,
            }
        }),
{
    let eff: &Vec<char> = if is_compression(ext) {
        match inner {
            Some(e2) => e2,
            None => {
                return Err("no file extension");
            },
        }
    } else {
        ext
    };
    if is_dimacs(eff) {
        Ok(FileFormat::Dimacs)
    } else if chars_eq_str(eff, "opb") {
        Ok(FileFormat::Opb)
    } else {
        Err("unknown file extension")
    }
}

} // verus!
