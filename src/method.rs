use vstd::prelude::*;

verus! {

/// The three interchangeable ways of filling the pixel buffer.
#[derive(Clone, Copy, Debug, PartialEq, Eq, Structural)]
pub enum RenderMethod {
    /// Every pixel on the calling thread, row by row.
    Sequential,
    /// A fixed number of bands of whole rows, one worker thread each.
    FixedBand,
    /// One band per row, scheduled over a work-stealing pool.
    RowParallel,
}

/// The method that a name selects: `single`, `crossbeam` or `rayon`.
pub open spec fn method_of(name: Seq<char>) -> Option<RenderMethod> {
    if name == "single"@ {
        Some(RenderMethod::Sequential)
    } else if name == "crossbeam"@ {
        Some(RenderMethod::FixedBand)
    } else if name == "rayon"@ {
        Some(RenderMethod::RowParallel)
    } else {
        None
    }
}

/// Whether two texts hold the same characters.
pub fn same_text(a: &str, b: &str) -> (r: bool)
    ensures
        r == (a@ == b@),
{
    let n = a.unicode_len();
    if n != b.unicode_len() {
        return false;
    }
    let mut i: usize = 0;
    while i < n
        invariant
            n == a@.len(),
            n == b@.len(),
            i <= n,
            forall|j: int| 0 <= j < i ==> a@[j] == b@[j],
        decreases n - i,
    {
        if a.get_char(i) != b.get_char(i) {
            return false;
        }
        i = i + 1;
    }
    assert(a@ =~= b@);
    true
}

/// The method that `name` selects; nothing for an unknown name.
pub fn method_named(name: &str) -> (r: Option<RenderMethod>)
    ensures
        r == method_of(name@),
{
    if same_text(name, "single") {
        Some(RenderMethod::Sequential)
    } else if same_text(name, "crossbeam") {
        Some(RenderMethod::FixedBand)
    } else if same_text(name, "rayon") {
        Some(RenderMethod::RowParallel)
    } else {
        None
    }
}

/// The method for an optional name: the row-parallel one when no name is
/// given, else the one the name selects.
pub fn select_method(name: Option<&str>) -> (r: Option<RenderMethod>)
    ensures
        name is None ==> r == Some(RenderMethod::RowParallel),
        name matches Some(n) ==> r == method_of(n@),
{
    match name {
        None => Some(RenderMethod::RowParallel),
        Some(n) => method_named(n),
    }
}

} // verus!
