//! A set of texts kept in ascending text order, as `BTreeSet<String>` keeps
//! it.

use vstd::prelude::*;

use crate::text::{chars_lt, compare_text, lemma_chars_lt_total, lemma_chars_lt_transitive, Precedence};

verus! {

/// The texts of `items`, in order.
pub open spec fn texts(items: Seq<String>) -> Seq<Seq<char>> {
    items.map_values(|s: String| s@)
}

/// Each text comes strictly after the one before it.
pub open spec fn strictly_ascending(t: Seq<Seq<char>>) -> bool {
    forall|i: int, j: int| 0 <= i < j < t.len() ==> chars_lt(t[i], t[j])
}

/// Two strictly ascending sequences of texts that hold the same texts are
/// the same sequence.
pub proof fn lemma_ascending_unique(a: Seq<Seq<char>>, b: Seq<Seq<char>>)
    requires
        strictly_ascending(a),
        strictly_ascending(b),
        a.to_set() == b.to_set(),
    ensures
        a == b,
    decreases a.len(),
{
    if a.len() == 0 {
        if b.len() > 0 {
            assert(b.to_set().contains(b[0]));
        }
        assert(a =~= b);
    } else {
        assert(a.to_set().contains(a[0]));
        let j = choose|j: int| 0 <= j < b.len() && b[j] == a[0];
        assert(b.to_set().contains(b[0]));
        let i = choose|i: int| 0 <= i < a.len() && a[i] == b[0];
        if j > 0 {
            assert(chars_lt(b[0], b[j]));
            if i > 0 {
                assert(chars_lt(a[0], a[i]));
                lemma_chars_lt_transitive(b[0], a[0], b[0]);
            }
            lemma_chars_lt_total(b[0], b[0]);
        }
        assert(b.len() > 0 && a[0] == b[0]);
        let ra = a.drop_first();
        let rb = b.drop_first();
        assert forall|x: Seq<char>| ra.to_set().contains(x) <==> rb.to_set().contains(x) by {
            if ra.to_set().contains(x) {
                let k = choose|k: int| 0 <= k < ra.len() && ra[k] == x;
                assert(a[k + 1] == x);
                assert(a.to_set().contains(x));
                let m = choose|m: int| 0 <= m < b.len() && b[m] == x;
                if m == 0 {
                    assert(chars_lt(a[0], a[k + 1]));
                    lemma_chars_lt_total(x, x);
                }
                assert(rb[m - 1] == x);
            }
            if rb.to_set().contains(x) {
                let k = choose|k: int| 0 <= k < rb.len() && rb[k] == x;
                assert(b[k + 1] == x);
                assert(b.to_set().contains(x));
                let m = choose|m: int| 0 <= m < a.len() && a[m] == x;
                if m == 0 {
                    assert(chars_lt(b[0], b[k + 1]));
                    lemma_chars_lt_total(x, x);
                }
                assert(ra[m - 1] == x);
            }
        }
        assert(ra.to_set() =~= rb.to_set());
        lemma_ascending_unique(ra, rb);
        assert(a =~= seq![a[0]] + ra);
        assert(b =~= seq![b[0]] + rb);
    }
}

/// A set of texts.
#[derive(Debug)]
pub struct TextSet {
    items: Vec<String>,
}

impl View for TextSet {
    type V = Set<Seq<char>>;

    closed spec fn view(&self) -> Set<Seq<char>> {
        texts(self.items@).to_set()
    }
}

proof fn lemma_insert_to_set(t: Seq<Seq<char>>, pos: int, x: Seq<char>)
    requires
        0 <= pos <= t.len(),
    ensures
        t.insert(pos, x).to_set() == t.to_set().insert(x),
{
    let u = t.insert(pos, x);
    assert forall|y| u.to_set().contains(y) <==> t.to_set().insert(x).contains(y) by {
        if u.to_set().contains(y) {
            let k = choose|k: int| 0 <= k < u.len() && u[k] == y;
            if k < pos {
                assert(t[k] == y);
            } else if k > pos {
                assert(t[k - 1] == y);
            }
        }
        if t.to_set().contains(y) {
            let k = choose|k: int| 0 <= k < t.len() && t[k] == y;
            if k < pos {
                assert(u[k] == y);
            } else {
                assert(u[k + 1] == y);
            }
        }
        if y == x {
            assert(u[pos] == y);
        }
    }
    assert(u.to_set() =~= t.to_set().insert(x));
}

proof fn lemma_remove_to_set(t: Seq<Seq<char>>, pos: int)
    requires
        0 <= pos < t.len(),
        strictly_ascending(t),
    ensures
        t.remove(pos).to_set() == t.to_set().remove(t[pos]),
{
    let u = t.remove(pos);
    assert forall|y| u.to_set().contains(y) <==> t.to_set().remove(t[pos]).contains(y) by {
        if u.to_set().contains(y) {
            let k = choose|k: int| 0 <= k < u.len() && u[k] == y;
            if k < pos {
                assert(t[k] == y);
                lemma_chars_lt_total(t[k], t[pos]);
            } else {
                assert(t[k + 1] == y);
                lemma_chars_lt_total(t[k + 1], t[pos]);
            }
        }
        if t.to_set().contains(y) && y != t[pos] {
            let k = choose|k: int| 0 <= k < t.len() && t[k] == y;
            if k < pos {
                assert(u[k] == y);
            } else {
                assert(k != pos);
                assert(u[k - 1] == y);
            }
        }
    }
    assert(u.to_set() =~= t.to_set().remove(t[pos]));
}

impl TextSet {
    #[verifier::type_invariant]
    closed spec fn well_formed(&self) -> bool {
        strictly_ascending(texts(self.items@))
    }

    /// The texts in ascending order.
    pub closed spec fn ordered(&self) -> Seq<Seq<char>> {
        texts(self.items@)
    }

    /// An empty set.
    pub fn new() -> (set: Self)
        ensures
            set@ == Set::<Seq<char>>::empty(),
            set.ordered().len() == 0,
    {
        let set = TextSet { items: Vec::new() };
        assert(texts(set.items@).to_set() =~= Set::<Seq<char>>::empty());
        set
    }

    /// The texts, ascending and each once.
    pub fn items(&self) -> (items: &Vec<String>)
        ensures
            texts(items@) == self.ordered(),
            strictly_ascending(self.ordered()),
            self.ordered().to_set() == self@,
    {
        proof {
            use_type_invariant(self);
        }
        &self.items
    }

    /// The texts, ascending and each once, as a vector of their own.
    pub fn into_items(self) -> (items: Vec<String>)
        ensures
            texts(items@) == self.ordered(),
            strictly_ascending(self.ordered()),
            self.ordered().to_set() == self@,
    {
        proof {
            use_type_invariant(&self);
        }
        self.items
    }

    /// Where `text` is, or where it would go.
    fn locate(&self, text: &str) -> (pos: usize)
        ensures
            pos <= self.ordered().len(),
            forall|i: int| 0 <= i < pos ==> chars_lt(#[trigger] self.ordered()[i], text@),
            pos < self.ordered().len() ==> !chars_lt(self.ordered()[pos as int], text@),
    {
        let n = self.items.len();
        let mut pos: usize = 0;
        while pos < n && compare_text(self.items[pos].as_str(), text) == Precedence::Before
            invariant
                n == self.items@.len(),
                pos <= n,
                forall|i: int| 0 <= i < pos ==> chars_lt(#[trigger] texts(self.items@)[i], text@),
            decreases n - pos,
        {
            pos = pos + 1;
        }
        proof {
            if pos < n {
                lemma_chars_lt_total(texts(self.items@)[pos as int], text@);
            }
        }
        pos
    }

    pub fn contains(&self, text: &str) -> (found: bool)
        ensures
            found == self@.contains(text@),
    {
        proof {
            use_type_invariant(self);
        }
        let pos = self.locate(text);
        let found = pos < self.items.len() && compare_text(self.items[pos].as_str(), text) == Precedence::Same;
        proof {
            let t = self.ordered();
            if self@.contains(text@) {
                let k = choose|k: int| 0 <= k < t.len() && t[k] == text@;
                lemma_chars_lt_total(t[k], text@);
                if k > pos {
                    assert(chars_lt(t[pos as int], t[k]));
                    lemma_chars_lt_total(t[pos as int], text@);
                    if chars_lt(text@, t[pos as int]) {
                        lemma_chars_lt_transitive(text@, t[pos as int], t[k]);
                    }
                }
            }
        }
        found
    }

    /// Adds `text`.
    pub fn insert(&mut self, text: String)
        ensures
            final(self)@ == old(self)@.insert(text@),
    {
        proof {
            use_type_invariant(&*self);
        }
        let pos = self.locate(text.as_str());
        if pos < self.items.len() && compare_text(self.items[pos].as_str(), text.as_str()) == Precedence::Same {
            assert(self@.contains(text@));
            assert(self@.insert(text@) =~= self@);
            return;
        }
        let ghost t = self.ordered();
        let ghost x = text@;
        proof {
            if pos < t.len() {
                lemma_chars_lt_total(t[pos as int], x);
            }
        }
        let mut items: Vec<String> = Vec::new();
        std::mem::swap(&mut items, &mut self.items);
        items.insert(pos, text);
        proof {
            assert(texts(items@) =~= t.insert(pos as int, x));
            lemma_insert_to_set(t, pos as int, x);
            assert forall|i: int, j: int| 0 <= i < j < texts(items@).len() implies chars_lt(
                texts(items@)[i],
                texts(items@)[j],
            ) by {
                let u = t.insert(pos as int, x);
                if j < pos {
                } else if j == pos {
                } else if i < pos {
                    lemma_chars_lt_transitive(t[i], x, t[pos as int]);
                    if j - 1 > pos {
                        lemma_chars_lt_transitive(t[i], t[pos as int], t[j - 1]);
                    }
                } else if i == pos {
                    if j - 1 > pos {
                        lemma_chars_lt_transitive(x, t[pos as int], t[j - 1]);
                    }
                }
            }
        }
        self.items = items;
    }

    /// Removes `text`.
    pub fn remove(&mut self, text: &str)
        ensures
            final(self)@ == old(self)@.remove(text@),
    {
        proof {
            use_type_invariant(&*self);
        }
        let pos = self.locate(text);
        let ghost t = self.ordered();
        if pos < self.items.len() && compare_text(self.items[pos].as_str(), text) == Precedence::Same {
            let mut items: Vec<String> = Vec::new();
            std::mem::swap(&mut items, &mut self.items);
            items.remove(pos);
            proof {
                assert(texts(items@) =~= t.remove(pos as int));
                lemma_remove_to_set(t, pos as int);
                assert forall|i: int, j: int| 0 <= i < j < texts(items@).len() implies chars_lt(
                    texts(items@)[i],
                    texts(items@)[j],
                ) by {
                    if i < pos && j >= pos {
                        lemma_chars_lt_transitive(t[i], t[pos as int], t[j + 1]);
                    }
                }
            }
            self.items = items;
        } else {
            proof {
                if self@.contains(text@) {
                    let k = choose|k: int| 0 <= k < t.len() && t[k] == text@;
                    lemma_chars_lt_total(t[k], text@);
                    if k > pos {
                        lemma_chars_lt_total(t[pos as int], text@);
                        if chars_lt(text@, t[pos as int]) {
                            lemma_chars_lt_transitive(text@, t[pos as int], t[k]);
                        }
                    }
                }
                assert(self@.remove(text@) =~= self@);
            }
        }
    }

    /// Whether both sets hold the same texts.
    pub fn same(&self, other: &TextSet) -> (same: bool)
        ensures
            same == (self@ == other@),
    {
        proof {
            use_type_invariant(self);
            use_type_invariant(other);
        }
        let a = self.items();
        let b = other.items();
        let mut i: usize = 0;
        while i < a.len()
            invariant
                texts(a@) == self.ordered(),
                self.ordered().to_set() == self@,
                i <= a@.len(),
                forall|k: int| 0 <= k < i ==> other@.contains(#[trigger] texts(a@)[k]),
            decreases a@.len() - i,
        {
            if !other.contains(a[i].as_str()) {
                assert(self@.contains(texts(a@)[i as int]));
                return false;
            }
            i = i + 1;
        }
        let mut j: usize = 0;
        while j < b.len()
            invariant
                texts(b@) == other.ordered(),
                other.ordered().to_set() == other@,
                j <= b@.len(),
                forall|k: int| 0 <= k < j ==> self@.contains(#[trigger] texts(b@)[k]),
            decreases b@.len() - j,
        {
            if !self.contains(b[j].as_str()) {
                assert(other@.contains(texts(b@)[j as int]));
                return false;
            }
            j = j + 1;
        }
        proof {
            assert forall|x| self@.contains(x) <==> other@.contains(x) by {
                if self@.contains(x) {
                    let k = choose|k: int| 0 <= k < texts(a@).len() && texts(a@)[k] == x;
                }
                if other@.contains(x) {
                    let k = choose|k: int| 0 <= k < texts(b@).len() && texts(b@)[k] == x;
                }
            }
            assert(self@ =~= other@);
        }
        true
    }

    /// A copy of this set.
    pub fn copied(&self) -> (copy: TextSet)
        ensures
            copy@ == self@,
            copy.ordered() == self.ordered(),
    {
        proof {
            use_type_invariant(self);
        }
        let n = self.items.len();
        let mut items: Vec<String> = Vec::new();
        let mut i: usize = 0;
        while i < n
            invariant
                n == self.items@.len(),
                i <= n,
                texts(items@) == texts(self.items@).take(i as int),
            decreases n - i,
        {
            let c = self.items[i].clone();
            let ghost before = items@;
            items.push(c);
            assert(texts(items@) =~= texts(before).push(c@));
            assert(texts(items@) =~= texts(self.items@).take(i + 1));
            i = i + 1;
        }
        assert(texts(self.items@).take(n as int) =~= texts(self.items@));
        TextSet { items }
    }
}

} // verus!
