//! What is decided before the watching begins.
use vstd::prelude::*;

verus! {

/// Answers a request to watch a window: it is refused while another one is
/// under way.
pub fn answer_start(busy: bool) -> (r: Result<(), String>)
    ensures
        r is Ok <==> !busy,
        r matches Err(message) ==> message@ == "已经在监听中"@,
{
    if busy {
        Err("已经在监听中".to_string())
    } else {
        Ok(())
    }
}

/// Whether the engine's files lie under a directory, and whether they lie beside
/// it.
#[derive(Clone, Copy, Debug, PartialEq, Eq, Structural)]
pub struct Probe {
    pub inside: bool,
    pub beside: bool,
}

/// Where the engine's files are taken from.
#[derive(Clone, Copy, Debug, PartialEq, Eq, Structural)]
pub enum LibPath {
    /// The place that the bundle names.
    Bundled,
    /// Under the ancestor of the program with this number, counted from the
    /// innermost.
    Inside(usize),
    /// Beside that ancestor.
    Beside(usize),
}

/// Whether `index` is the first ancestor at which something was found.
pub open spec fn first_found(ancestors: Seq<Probe>, index: int) -> bool {
    &&& 0 <= index < ancestors.len()
    &&& ancestors[index].inside || ancestors[index].beside
    &&& forall|i: int|
        0 <= i < index ==> !(#[trigger] ancestors[i]).inside && !ancestors[i].beside
}

/// Whether nothing was found at any ancestor.
pub open spec fn none_found(ancestors: Seq<Probe>) -> bool {
    forall|i: int|
        0 <= i < ancestors.len() ==> !(#[trigger] ancestors[i]).inside && !ancestors[i].beside
}

/// Chooses where the engine's files are taken from. The place that the bundle
/// names comes first, then the innermost ancestor of the program at which they
/// are found, there under it before beside it. Where they are nowhere, it is
/// the place that the bundle names.
pub fn get_lib_path(bundled_exists: bool, ancestors: &[Probe]) -> (r: LibPath)
    ensures
        match r {
            LibPath::Bundled => bundled_exists || none_found(ancestors@),
            LibPath::Inside(index) => !bundled_exists && first_found(ancestors@, index as int)
                && ancestors@[index as int].inside,
            LibPath::Beside(index) => !bundled_exists && first_found(ancestors@, index as int)
                && !ancestors@[index as int].inside,
        },
{
    if bundled_exists {
        return LibPath::Bundled;
    }
    let mut i: usize = 0;
    while i < ancestors.len()
        invariant
            i <= ancestors@.len(),
            !bundled_exists,
            forall|k: int|
                0 <= k < i ==> !(#[trigger] ancestors@[k]).inside && !ancestors@[k].beside,
        decreases ancestors@.len() - i,
    {
        let probe: Probe = ancestors[i];
        if probe.inside {
            return LibPath::Inside(i);
        }
        if probe.beside {
            return LibPath::Beside(i);
        }
        i = i + 1;
    }
    LibPath::Bundled
}

} // verus!
