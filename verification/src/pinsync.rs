//! Graph pin files of the Git synchronisation controller: one file per
//! long-lived graph holds its complete set of component pins, and the rules
//! such a file must meet.

use vstd::prelude::*;

use crate::fmt::{debug_quoted, debug_quoted_text, decimal, decimal_text};
use crate::stores::{git_error_text, GitError};
use crate::text::text_equal;

verus! {

/// The bundle a component is pinned to and the source revision it came from.
#[derive(Clone, Debug, PartialEq, Eq)]
pub struct ComponentPin {
    pub bundle_digest: String,
    pub source_rev: String,
}

/// The pins of one graph: schema version, graph identity, generation, and
/// the pin of each component, in ascending component order as the file's
/// table holds them.
#[derive(Clone, Debug, PartialEq, Eq)]
pub struct GraphPins {
    pub schema: u32,
    pub graph: String,
    pub generation: u64,
    pub components: Vec<(String, ComponentPin)>,
}

/// Why a synchronisation failed.
#[derive(Clone, Debug, PartialEq, Eq)]
pub enum PinSyncError {
    Core(String),
    Decode(String),
    Encode(String),
    Git(GitError),
}

impl PinSyncError {
    /// The error as its `Display` shows it.
    pub fn message(&self) -> (text: String)
        ensures
            match *self {
                PinSyncError::Core(m) => text@ == "core graph-intent seam failed: "@ + m@,
                PinSyncError::Decode(m) => text@ == "invalid graph pin file: "@ + m@,
                PinSyncError::Encode(m) => text@ == "cannot encode graph pin file: "@ + m@,
                PinSyncError::Git(e) => text@ == git_error_text(e),
            },
    {
        match self {
            PinSyncError::Core(m) => {
                let mut t = String::from_str("core graph-intent seam failed: ");
                t.append(m.as_str());
                t
            },
            PinSyncError::Decode(m) => {
                let mut t = String::from_str("invalid graph pin file: ");
                t.append(m.as_str());
                t
            },
            PinSyncError::Encode(m) => {
                let mut t = String::from_str("cannot encode graph pin file: ");
                t.append(m.as_str());
                t
            },
            PinSyncError::Git(e) => e.message(),
        }
    }
}

/// A pin names a component, a bundle and a source revision.
pub open spec fn pin_complete(entry: (String, ComponentPin)) -> bool {
    entry.0@.len() > 0 && entry.1.bundle_digest@.len() > 0 && entry.1.source_rev@.len() > 0
}

/// What checking a pin file answers: the first rule it breaks, the first
/// incomplete pin for the last.
pub open spec fn pins_problem(p: GraphPins) -> Option<Seq<char>> {
    if p.schema != 1 {
        Some("graph "@ + p.graph@ + " uses unsupported pin-file schema "@ + decimal(p.schema as nat) + "; expected 1"@)
    } else if p.generation == 0 {
        Some("graph "@ + p.graph@ + " generation must be greater than zero"@)
    } else if exists|i: int| 0 <= i < p.components@.len() && !pin_complete(#[trigger] p.components@[i]) {
        let i = choose|i: int|
            0 <= i < p.components@.len() && !pin_complete(p.components@[i]) && forall|j: int|
                0 <= j < i ==> pin_complete(#[trigger] p.components@[j]);
        Some("graph "@ + p.graph@ + " component "@ + debug_quoted_text(p.components@[i].0@) + " requires bundle_digest and source_rev"@)
    } else {
        None
    }
}

proof fn lemma_first_incomplete(c: Seq<(String, ComponentPin)>, i: int)
    requires
        0 <= i < c.len(),
        !pin_complete(c[i]),
        forall|j: int| 0 <= j < i ==> pin_complete(#[trigger] c[j]),
    ensures
        (choose|k: int| 0 <= k < c.len() && !pin_complete(c[k]) && forall|j: int| 0 <= j < k ==> pin_complete(#[trigger] c[j])) == i,
{
    let k = choose|k: int| 0 <= k < c.len() && !pin_complete(c[k]) && forall|j: int| 0 <= j < k ==> pin_complete(#[trigger] c[j]);
    if k < i {
    } else if k > i {
    }
}

/// Checks a pin file, as `pins_problem` states.
pub fn validate_pins(pins: &GraphPins) -> (r: Result<(), PinSyncError>)
    ensures
        match pins_problem(*pins) {
            None => r is Ok,
            Some(m) => r matches Err(PinSyncError::Decode(t)) && t@ == m,
        },
{
    if pins.schema != 1 {
        let mut m = String::from_str("graph ");
        m.append(pins.graph.as_str());
        m.append(" uses unsupported pin-file schema ");
        let s = decimal_text(pins.schema as u64);
        m.append(s.as_str());
        m.append("; expected 1");
        return Err(PinSyncError::Decode(m));
    }
    if pins.generation == 0 {
        let mut m = String::from_str("graph ");
        m.append(pins.graph.as_str());
        m.append(" generation must be greater than zero");
        return Err(PinSyncError::Decode(m));
    }
    let n = pins.components.len();
    let mut i: usize = 0;
    while i < n
        invariant
            n == pins.components@.len(),
            pins.schema == 1,
            pins.generation != 0,
            i <= n,
            forall|j: int| 0 <= j < i ==> pin_complete(#[trigger] pins.components@[j]),
        decreases n - i,
    {
        let entry = &pins.components[i];
        if entry.0.unicode_len() == 0 || entry.1.bundle_digest.unicode_len() == 0 || entry.1.source_rev.unicode_len() == 0 {
            proof {
                assert(!pin_complete(pins.components@[i as int]));
                lemma_first_incomplete(pins.components@, i as int);
            }
            let mut m = String::from_str("graph ");
            m.append(pins.graph.as_str());
            m.append(" component ");
            let q = debug_quoted(entry.0.as_str());
            m.append(q.as_str());
            m.append(" requires bundle_digest and source_rev");
            return Err(PinSyncError::Decode(m));
        }
        i = i + 1;
    }
    Ok(())
}

/// A pin file as plain values.
pub open spec fn pins_view(p: GraphPins) -> (u32, Seq<char>, u64, Seq<(Seq<char>, Seq<char>, Seq<char>)>) {
    (
        p.schema,
        p.graph@,
        p.generation,
        p.components@.map_values(|c: (String, ComponentPin)| (c.0@, c.1.bundle_digest@, c.1.source_rev@)),
    )
}

/// Whether two pin files hold the same values.
pub fn same_pins(a: &GraphPins, b: &GraphPins) -> (same: bool)
    ensures
        same == (pins_view(*a) == pins_view(*b)),
{
    if a.schema != b.schema || a.generation != b.generation || !text_equal(a.graph.as_str(), b.graph.as_str())
        || a.components.len() != b.components.len() {
        assert(pins_view(*a).3.len() == a.components@.len());
        assert(pins_view(*b).3.len() == b.components@.len());
        return false;
    }
    let ghost ca = pins_view(*a).3;
    let ghost cb = pins_view(*b).3;
    let mut i: usize = 0;
    while i < a.components.len()
        invariant
            a.components@.len() == b.components@.len(),
            ca == pins_view(*a).3,
            cb == pins_view(*b).3,
            i <= a.components@.len(),
            forall|j: int| 0 <= j < i ==> ca[j] == cb[j],
        decreases a.components@.len() - i,
    {
        let x = &a.components[i];
        let y = &b.components[i];
        if !text_equal(x.0.as_str(), y.0.as_str()) || !text_equal(x.1.bundle_digest.as_str(), y.1.bundle_digest.as_str())
            || !text_equal(x.1.source_rev.as_str(), y.1.source_rev.as_str()) {
            assert(ca[i as int] != cb[i as int]);
            return false;
        }
        i = i + 1;
    }
    assert(ca =~= cb);
    true
}

/// Whether `path` names a pin file.
pub open spec fn is_pin_path(path: Seq<char>) -> bool {
    path.len() >= 5 && path.skip(path.len() - 5) == ".toml"@
}

/// The first of `pins` for `graph`.
pub open spec fn pins_for(pins: Seq<GraphPins>, graph: Seq<char>) -> Option<GraphPins>
    decreases pins.len(),
{
    if pins.len() == 0 {
        None
    } else if pins[0].graph@ == graph {
        Some(pins[0])
    } else {
        pins_for(pins.drop_first(), graph)
    }
}

/// Why a decoded pin file at `path` is refused, if it is: it must pass
/// `pins_problem`, be named after its graph, and name a graph no earlier
/// file named.
pub open spec fn pin_file_fault(path: Seq<char>, pins: GraphPins, earlier: Seq<GraphPins>) -> Option<Seq<char>> {
    if pins_problem(pins) is Some {
        pins_problem(pins)
    } else if path != pins.graph@ + ".toml"@ {
        Some(path + ": graph identity requires filename "@ + pins.graph@ + ".toml"@)
    } else if pins_for(earlier, pins.graph@) is Some {
        Some("duplicate graph identity in "@ + path)
    } else {
        None
    }
}

/// What reading a directory of pin files answers: the pin files, in order,
/// other files skipped; or the first refusal, a file that did not decode
/// (its decoding error says why) or one `pin_file_fault` refuses.
pub open spec fn admitted_pins(files: Seq<(String, Result<GraphPins, String>)>) -> Result<Seq<GraphPins>, Seq<char>>
    decreases files.len(),
{
    if files.len() == 0 {
        Ok(Seq::empty())
    } else {
        match admitted_pins(files.drop_last()) {
            Err(m) => Err(m),
            Ok(earlier) => {
                let (path, decoded) = files.last();
                if !is_pin_path(path@) {
                    Ok(earlier)
                } else {
                    match decoded {
                        Err(m) => Err(m@),
                        Ok(pins) => match pin_file_fault(path@, pins, earlier) {
                            Some(m) => Err(m),
                            None => Ok(earlier.push(pins)),
                        },
                    }
                }
            },
        }
    }
}

fn ends_with_toml(path: &str) -> (r: bool)
    ensures
        r == is_pin_path(path@),
{
    let n = path.unicode_len();
    if n < 5 {
        return false;
    }
    let tail = path.substring_char(n - 5, n);
    let r = text_equal(tail, ".toml");
    assert(tail@ =~= path@.skip(n - 5));
    r
}

fn find_pins(pins: &Vec<GraphPins>, graph: &str) -> (at: Option<usize>)
    ensures
        match at {
            Some(i) => i < pins@.len() && pins_for(pins@, graph@) == Some(pins@[i as int]),
            None => pins_for(pins@, graph@) is None,
        },
{
    let mut i: usize = 0;
    assert(pins@.skip(0) =~= pins@);
    while i < pins.len()
        invariant
            i <= pins@.len(),
            pins_for(pins@, graph@) == pins_for(pins@.skip(i as int), graph@),
        decreases pins@.len() - i,
    {
        assert(pins@.skip(i as int)[0] == pins@[i as int]);
        assert(pins@.skip(i as int).drop_first() =~= pins@.skip(i + 1));
        if text_equal(pins[i].graph.as_str(), graph) {
            return Some(i);
        }
        i = i + 1;
    }
    None
}

/// Reads the decoded files of a pin directory, in order, as
/// `admitted_pins` states.
pub fn admit_pin_files(files: Vec<(String, Result<GraphPins, String>)>) -> (r: Result<Vec<GraphPins>, PinSyncError>)
    ensures
        match admitted_pins(files@) {
            Ok(pins) => r matches Ok(v) && v@ == pins,
            Err(m) => r matches Err(PinSyncError::Decode(t)) && t@ == m,
        },
{
    let ghost all = files@;
    let mut rest = files;
    let mut admitted: Vec<GraphPins> = Vec::new();
    let mut done: usize = 0;
    assert(all.skip(0) =~= all);
    assert(all.len() == rest.len());
    assert(all.take(0) =~= Seq::<(String, Result<GraphPins, String>)>::empty());
    while rest.len() > 0
        invariant
            all == files@,
            all.len() <= usize::MAX,
            done + rest@.len() == all.len(),
            rest@ == all.skip(done as int),
            admitted_pins(all.take(done as int)) == Ok::<Seq<GraphPins>, Seq<char>>(admitted@),
        decreases rest@.len(),
    {
        let (path, decoded) = rest.remove(0);
        proof {
            assert(all.skip(done as int)[0] == (path, decoded));
            assert(all.skip(done as int).drop_first() =~= all.skip(done + 1));
            assert(all.take(done + 1).drop_last() =~= all.take(done as int));
            assert(all.take(done + 1).last() == (path, decoded));
        }
        if ends_with_toml(path.as_str()) {
            match decoded {
                Err(m) => {
                    proof {
                        lemma_admitted_prefix_err(all, done as int + 1);
                    }
                    return Err(PinSyncError::Decode(m));
                },
                Ok(pins) => {
                    match validate_pins(&pins) {
                        Err(e) => {
                            proof {
                                lemma_admitted_prefix_err(all, done as int + 1);
                            }
                            return Err(e);
                        },
                        Ok(()) => {},
                    }
                    let mut expected = pins.graph.clone();
                    expected.append(".toml");
                    if !text_equal(path.as_str(), expected.as_str()) {
                        let mut m = path.clone();
                        m.append(": graph identity requires filename ");
                        m.append(expected.as_str());
                        proof {
                            lemma_admitted_prefix_err(all, done as int + 1);
                        }
                        return Err(PinSyncError::Decode(m));
                    }
                    if find_pins(&admitted, pins.graph.as_str()).is_some() {
                        let mut m = String::from_str("duplicate graph identity in ");
                        m.append(path.as_str());
                        proof {
                            lemma_admitted_prefix_err(all, done as int + 1);
                        }
                        return Err(PinSyncError::Decode(m));
                    }
                    admitted.push(pins);
                },
            }
        }
        done = done + 1;
    }
    assert(all.take(done as int) =~= all);
    Ok(admitted)
}

/// A refusal of a prefix is the refusal of the whole directory.
proof fn lemma_admitted_prefix_err(files: Seq<(String, Result<GraphPins, String>)>, k: int)
    requires
        0 <= k <= files.len(),
        admitted_pins(files.take(k)) is Err,
    ensures
        admitted_pins(files) == admitted_pins(files.take(k)),
    decreases files.len() - k,
{
    if k < files.len() {
        assert(files.take(k + 1).drop_last() =~= files.take(k));
        assert(admitted_pins(files.take(k + 1)) == admitted_pins(files.take(k)));
        lemma_admitted_prefix_err(files, k + 1);
    } else {
        assert(files.take(k) =~= files);
    }
}

/// The pin files to apply, in order: each incoming file whose graph was not
/// seen last time with the same values.
pub open spec fn pin_applies(incoming: Seq<GraphPins>, seen: Seq<GraphPins>) -> Seq<GraphPins>
    decreases incoming.len(),
{
    if incoming.len() == 0 {
        Seq::empty()
    } else {
        let rest = pin_applies(incoming.drop_last(), seen);
        let p = incoming.last();
        match pins_for(seen, p.graph@) {
            Some(q) => if pins_view(q) == pins_view(p) {
                rest
            } else {
                rest.push(p)
            },
            None => rest.push(p),
        }
    }
}

/// The graphs to retire, in order: each graph seen last time that no
/// incoming file names.
pub open spec fn pin_retires(seen: Seq<GraphPins>, incoming: Seq<GraphPins>) -> Seq<Seq<char>>
    decreases seen.len(),
{
    if seen.len() == 0 {
        Seq::empty()
    } else {
        let rest = pin_retires(seen.drop_last(), incoming);
        if pins_for(incoming, seen.last().graph@) is None {
            rest.push(seen.last().graph@)
        } else {
            rest
        }
    }
}

/// The calls a poll makes after reading `incoming`, given what it saw
/// last time: the files to apply and the graphs to retire, as `pin_applies`
/// and `pin_retires` state. The poll's count of changes is the number of
/// both.
pub fn plan_pin_sync(seen: &Vec<GraphPins>, incoming: &Vec<GraphPins>) -> (plan: (Vec<usize>, Vec<String>))
    ensures
        plan.0@.map_values(|i: usize| incoming@[i as int]) == pin_applies(incoming@, seen@),
        forall|k: int| 0 <= k < plan.0@.len() ==> #[trigger] plan.0@[k] < incoming@.len(),
        plan.1@.map_values(|g: String| g@) == pin_retires(seen@, incoming@),
{
    let mut applies: Vec<usize> = Vec::new();
    let mut i: usize = 0;
    while i < incoming.len()
        invariant
            i <= incoming@.len(),
            forall|k: int| 0 <= k < applies@.len() ==> #[trigger] applies@[k] < incoming@.len(),
            applies@.map_values(|x: usize| incoming@[x as int]) == pin_applies(incoming@.take(i as int), seen@),
        decreases incoming@.len() - i,
    {
        let p = &incoming[i];
        proof {
            assert(incoming@.take(i + 1).drop_last() =~= incoming@.take(i as int));
            assert(incoming@.take(i + 1).last() == incoming@[i as int]);
        }
        let changed = match find_pins(seen, p.graph.as_str()) {
            Some(at) => !same_pins(&seen[at], p),
            None => true,
        };
        if changed {
            let ghost before = applies@;
            applies.push(i);
            assert(applies@.map_values(|x: usize| incoming@[x as int]) =~= before.map_values(
                |x: usize| incoming@[x as int],
            ).push(incoming@[i as int]));
        }
        i = i + 1;
    }
    assert(incoming@.take(i as int) =~= incoming@);
    let mut retires: Vec<String> = Vec::new();
    let mut j: usize = 0;
    while j < seen.len()
        invariant
            j <= seen@.len(),
            retires@.map_values(|g: String| g@) == pin_retires(seen@.take(j as int), incoming@),
        decreases seen@.len() - j,
    {
        proof {
            assert(seen@.take(j + 1).drop_last() =~= seen@.take(j as int));
            assert(seen@.take(j + 1).last() == seen@[j as int]);
        }
        if find_pins(incoming, seen[j].graph.as_str()).is_none() {
            let ghost before = retires@;
            let g = seen[j].graph.clone();
            retires.push(g);
            assert(retires@.map_values(|x: String| x@) =~= before.map_values(|x: String| x@).push(seen@[j as int].graph@));
        }
        j = j + 1;
    }
    assert(seen@.take(j as int) =~= seen@);
    (applies, retires)
}

} // verus!

verus! {

/// An incoming pin file is unchanged when the graph was seen last time
/// with the same values.
pub open spec fn pins_unchanged(seen: Seq<GraphPins>, p: GraphPins) -> bool {
    pins_for(seen, p.graph@) matches Some(q) && pins_view(q) == pins_view(p)
}

/// A pin poll applies exactly the incoming files that are not unchanged
/// since the last poll, and retires exactly the graphs seen last time that
/// no incoming file names.
pub proof fn law_pin_sync_is_the_changes(incoming: Seq<GraphPins>, seen: Seq<GraphPins>, p: GraphPins, g: Seq<char>)
    ensures
        pin_applies(incoming, seen).contains(p) <==> incoming.contains(p) && !pins_unchanged(seen, p),
        pin_retires(seen, incoming).contains(g) <==> exists|i: int|
            0 <= i < seen.len() && (#[trigger] seen[i]).graph@ == g && pins_for(incoming, g) is None,
{
    lemma_pin_applies(incoming, seen, p);
    lemma_pin_retires(seen, incoming, g);
}

proof fn lemma_pin_applies(incoming: Seq<GraphPins>, seen: Seq<GraphPins>, p: GraphPins)
    ensures
        pin_applies(incoming, seen).contains(p) <==> incoming.contains(p) && !pins_unchanged(seen, p),
    decreases incoming.len(),
{
    if incoming.len() > 0 {
        let front = incoming.drop_last();
        lemma_pin_applies(front, seen, p);
        let last = incoming.last();
        lemma_seq_push_contains(front, last, p);
        assert(incoming =~= front.push(last));
        lemma_seq_push_contains(pin_applies(front, seen), last, p);
    }
}

proof fn lemma_pin_retires(seen: Seq<GraphPins>, incoming: Seq<GraphPins>, g: Seq<char>)
    ensures
        pin_retires(seen, incoming).contains(g) <==> exists|i: int|
            0 <= i < seen.len() && (#[trigger] seen[i]).graph@ == g && pins_for(incoming, g) is None,
    decreases seen.len(),
{
    if seen.len() > 0 {
        let front = seen.drop_last();
        lemma_pin_retires(front, incoming, g);
        let last = seen.last();
        lemma_seq_push_contains(pin_retires(front, incoming), last.graph@, g);
        if exists|i: int| 0 <= i < front.len() && (#[trigger] front[i]).graph@ == g && pins_for(incoming, g) is None {
            let i = choose|i: int| 0 <= i < front.len() && (#[trigger] front[i]).graph@ == g && pins_for(incoming, g) is None;
            assert(seen[i] == front[i]);
        }
        if exists|i: int| 0 <= i < seen.len() && (#[trigger] seen[i]).graph@ == g && pins_for(incoming, g) is None {
            let i = choose|i: int| 0 <= i < seen.len() && (#[trigger] seen[i]).graph@ == g && pins_for(incoming, g) is None;
            if i < front.len() {
                assert(front[i] == seen[i]);
            }
        }
        assert(seen[seen.len() - 1] == last);
    }
}

proof fn lemma_seq_push_contains<A>(s: Seq<A>, x: A, y: A)
    ensures
        s.push(x).contains(y) <==> s.contains(y) || x == y,
{
    if s.push(x).contains(y) {
        let i = choose|i: int| 0 <= i < s.len() + 1 && s.push(x)[i] == y;
        if i < s.len() {
            assert(s[i] == y);
        }
    }
    if s.contains(y) {
        let i = choose|i: int| 0 <= i < s.len() && s[i] == y;
        assert(s.push(x)[i] == y);
    }
    assert(s.push(x)[s.len() as int] == x);
}

} // verus!

verus! {

/// A pin file is accepted exactly when it uses schema one, a generation
/// above zero, and every pin names a component, a bundle and a source
/// revision.
pub proof fn law_pin_file_rules(p: GraphPins)
    ensures
        pins_problem(p) is None <==> (p.schema == 1 && p.generation > 0 && forall|i: int|
            0 <= i < p.components@.len() ==> pin_complete(#[trigger] p.components@[i])),
{
}

} // verus!
