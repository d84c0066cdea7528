//! The word graph (GADDAG).
//!
//! Every word `c1 c2 .. cn` is stored in each of its `n` rotated forms
//! `ci .. c1 Delim ci+1 .. cn` (without the delimiter when `i == n`), so that
//! a search may start at any letter of a word, run to the left until the
//! word's first letter, and then continue to the right of where it started.
//!
//! The graph is a tree of arcs.  From the root arc, each stored form is a
//! path of arcs labelled by its symbols.  The arc reached by a form without
//! its last symbol carries that last symbol in its letter set: the letter
//! set of an arc holds the letters that complete a stored form when they
//! come next.
use vstd::prelude::*;
use crate::letters::{
    all_letters, char_at, check_letter, is_letter, letter_index, letter_to_index, LetterSet,
};

verus! {

/// Slot of the delimiter in a node's arc table; letters take the slots below.
pub const DELIM_SLOT: usize = 26;

/// A symbol on an arc: a letter, or the delimiter between the reversed
/// prefix and the suffix of a rotated form.
#[derive(Copy, Clone, Debug, PartialEq, Eq, Hash)]
pub enum Kind {
    Char(char),
    Delim,
}

/// An arc of the graph, with the letters that complete a word right after
/// it and the node it leads to.
pub struct Arc {
    pub letter_set: LetterSet,
    pub next: Node,
}

/// A node: its outgoing arcs, by slot.  Slots beyond the table's length are
/// vacant.
pub struct Node {
    pub arcs: Vec<Option<Arc>>,
}

/// The word graph itself, entered through its initial arc.
pub struct Graph {
    pub init: Arc,
}

/// A word that the graph can store: non-empty and made of letters only.
pub open spec fn valid_word(w: Seq<char>) -> bool {
    w.len() > 0 && all_letters(w)
}

/// The symbol at position `j` of the rotated form of `w` split after its
/// first `i` letters.
pub open spec fn rotation_symbol(w: Seq<char>, i: int, j: int) -> Kind {
    if j < i {
        Kind::Char(w[i - 1 - j])
    } else if j == i {
        Kind::Delim
    } else {
        Kind::Char(w[j - 1])
    }
}

/// The rotated form of `w` split after its first `i` letters:
/// `w[i-1] .. w[0] Delim w[i] .. w[n-1]`, without the delimiter when `i == n`.
pub open spec fn rotation(w: Seq<char>, i: int) -> Seq<Kind> {
    Seq::new(
        if i < w.len() {
            (w.len() + 1) as nat
        } else {
            w.len()
        },
        |j: int| rotation_symbol(w, i, j),
    )
}

/// Whether `q` is a rotated form of some word of `dict`.
pub open spec fn is_rotation_in(dict: Set<Seq<char>>, q: Seq<Kind>) -> bool {
    exists|w: Seq<char>, i: int| dict.contains(w) && 1 <= i <= w.len() && q == #[trigger] rotation(w, i)
}

/// Whether `q` is a beginning of `t`.
pub open spec fn is_prefix(q: Seq<Kind>, t: Seq<Kind>) -> bool {
    q.len() <= t.len() && q == t.take(q.len() as int)
}

/// Whether `q` is a beginning of a rotated form of some word of `dict`.
pub open spec fn is_path_in(dict: Set<Seq<char>>, q: Seq<Kind>) -> bool {
    exists|w: Seq<char>, i: int|
        dict.contains(w) && 1 <= i <= w.len() && is_prefix(q, #[trigger] rotation(w, i))
}

/// A rotated form determines its word and its split point.
pub proof fn lemma_rotation_injective(w1: Seq<char>, i1: int, w2: Seq<char>, i2: int)
    requires
        1 <= i1 <= w1.len(),
        1 <= i2 <= w2.len(),
        rotation(w1, i1) == rotation(w2, i2),
    ensures
        w1 == w2,
        i1 == i2,
{
    let r1 = rotation(w1, i1);
    let r2 = rotation(w2, i2);
    assert(r1.len() == r2.len());
    if i1 < i2 {
        if i1 < w1.len() {
            assert(r1[i1] is Delim);
            assert(r2[i1] is Char);
        }
    } else if i2 < i1 {
        if i2 < w2.len() {
            assert(r2[i2] is Delim);
            assert(r1[i2] is Char);
        }
    }
    assert(i1 == i2);
    assert(w1.len() == w2.len());
    assert forall|j: int| 0 <= j < w1.len() implies w1[j] == w2[j] by {
        if j < i1 {
            assert(r1[i1 - 1 - j] == Kind::Char(w1[j]));
            assert(r2[i1 - 1 - j] == Kind::Char(w2[j]));
        } else {
            assert(r1[j + 1] == Kind::Char(w1[j]));
            assert(r2[j + 1] == Kind::Char(w2[j]));
        }
    }
    assert(w1 =~= w2);
}

/// The table slot of a symbol, if it has one: letters of the alphabet by
/// their position, the delimiter after them.
pub open spec fn slot_of(k: Kind) -> Option<int> {
    match k {
        Kind::Char(c) => if is_letter(c) {
            Some(letter_index(c))
        } else {
            None
        },
        Kind::Delim => Some(DELIM_SLOT as int),
    }
}

/// Whether every symbol of `path` has a slot.
pub open spec fn valid_path(path: Seq<Kind>) -> bool {
    forall|j: int| 0 <= j < path.len() ==> (#[trigger] slot_of(path[j])) is Some
}

impl Kind {
    /// The table slot of this symbol, if it has one.
    pub fn slot(&self) -> (s: Option<usize>)
        ensures
            match s {
                Some(i) => slot_of(*self) == Some(i as int) && i <= DELIM_SLOT,
                None => slot_of(*self) is None,
            },
    {
        match self {
            Kind::Char(c) => {
                if check_letter(*c) {
                    Some(letter_to_index(*c))
                } else {
                    None
                }
            },
            Kind::Delim => Some(DELIM_SLOT),
        }
    }
}

impl Node {
    /// The arc that leaves this node under the symbol `k`, if there is one.
    pub open spec fn child(self, k: Kind) -> Option<Arc> {
        match slot_of(k) {
            Some(s) => if s < self.arcs@.len() {
                self.arcs@[s]
            } else {
                None
            },
            None => None,
        }
    }

    /// Whether the form `q`, of two symbols or more, is stored below this node.
    pub open spec fn accepts(self, q: Seq<Kind>) -> bool {
        q.len() >= 2 && match self.child(q[0]) {
            Some(a) => a.accepts(q.drop_first()),
            None => false,
        }
    }

    /// Whether arcs labelled by the symbols of the non-empty `q` lead on from this node.
    pub open spec fn walks(self, q: Seq<Kind>) -> bool {
        q.len() >= 1 && match self.child(q[0]) {
            Some(a) => a.walk(q.drop_first()) is Some,
            None => false,
        }
    }

    /// A node without arcs.
    fn new() -> (n: Node)
        ensures
            n.arcs@.len() == 0,
    {
        Node { arcs: Vec::new() }
    }

    /// Looks up the arc under the symbol `k`.
    pub fn get(&self, k: Kind) -> (r: Option<&Arc>)
        ensures
            match r {
                Some(a) => self.child(k) == Some(*a),
                None => self.child(k) is None,
            },
    {
        match k.slot() {
            Some(s) => {
                if s < self.arcs.len() {
                    self.arcs[s].as_ref()
                } else {
                    None
                }
            },
            None => None,
        }
    }

    /// Makes sure that an arc leaves this node under `k`, adding a bare one
    /// where there was none.  Returns the slot of `k`.
    fn ensure_arc(&mut self, k: Kind) -> (s: usize)
        requires
            slot_of(k) is Some,
        ensures
            slot_of(k) == Some(s as int),
            s < final(self).arcs@.len(),
            final(self).arcs@[s as int] == final(self).child(k),
            final(self).child(k) is Some,
            forall|j: Kind| j != k ==> final(self).child(j) == old(self).child(j),
            old(self).child(k) is Some ==> final(self).child(k) == old(self).child(k),
            old(self).child(k) is None ==> final(self).child(k)->0.is_bare(),
    {
        let s = k.slot().unwrap();
        while self.arcs.len() <= s
            invariant
                slot_of(k) == Some(s as int),
                old(self).arcs@.len() <= self.arcs@.len(),
                forall|i: int| 0 <= i < old(self).arcs@.len() ==> self.arcs@[i] == old(self).arcs@[i],
                forall|i: int| old(self).arcs@.len() <= i < self.arcs@.len() ==> self.arcs@[i] is None,
            decreases s + 1 - self.arcs.len(),
        {
            self.arcs.push(None);
        }
        if self.arcs[s].is_none() {
            self.arcs[s] = Some(Arc::new());
        }
        proof {
            assert forall|j: Kind| j != k implies self.child(j) == old(self).child(j) by {
                match slot_of(j) {
                    Some(t) => {
                        assert(t != s);
                    },
                    None => {},
                }
            }
        }
        s
    }

    /// Stores below this node the symbols of `path` from position `pos` on,
    /// which are two or more.
    fn add_word(&mut self, path: &Vec<Kind>, pos: usize)
        requires
            pos + 1 < path.len(),
            valid_path(path@),
            path@.last() is Char,
        ensures
            forall|q: Seq<Kind>| #[trigger]
                final(self).accepts(q) <==> old(self).accepts(q) || q == path@.skip(pos as int),
            forall|q: Seq<Kind>| old(self).walks(q) ==> #[trigger] final(self).walks(q),
            final(self).walks(path@.skip(pos as int)),
            forall|q: Seq<Kind>| #[trigger]
                final(self).walks(q) ==> old(self).walks(q) || is_prefix(q, path@.skip(pos as int)),
        decreases path.len() - pos, 0int,
    {
        let k = path[pos];
        let ghost t = path@.skip(pos as int);
        let ghost t1 = path@.skip(pos + 1);
        assert(slot_of(path@[pos as int]) is Some);
        let s = self.ensure_arc(k);
        let ghost mid = *self;
        match &mut self.arcs[s] {
            Some(child) => {
                child.add_word(path, pos + 1);
            },
            None => {},
        }
        proof {
            let before = mid.child(k)->0;
            let after = self.child(k)->0;
            assert(t.drop_first() =~= t1);
            assert(t[0] == k);
            assert forall|j: Kind| j != k implies self.child(j) == old(self).child(j) by {
                assert(mid.child(j) == old(self).child(j));
                match slot_of(j) {
                    Some(u) => {
                        assert(u != s);
                    },
                    None => {},
                }
            }
            assert forall|q: Seq<Kind>| #[trigger]
                self.accepts(q) <==> old(self).accepts(q) || q == t by {
                if q.len() >= 2 {
                    if q[0] == k {
                        assert(after.accepts(q.drop_first()) <==> before.accepts(q.drop_first())
                            || q.drop_first() == t1);
                        if old(self).child(k) is None {
                            lemma_bare_accepts_nothing(before, q.drop_first());
                        }
                        if q.drop_first() == t1 {
                            assert forall|j: int| 0 <= j < q.len() implies q[j] == t[j] by {
                                if j > 0 {
                                    assert(q.drop_first()[j - 1] == q[j]);
                                }
                            }
                            assert(q =~= t);
                        }
                    } else {
                        assert(q != t);
                    }
                } else {
                    assert(q != t);
                }
            }
            assert forall|q: Seq<Kind>| old(self).walks(q) implies #[trigger] self.walks(q) by {
                if q[0] == k {
                    assert(before.walk(q.drop_first()) is Some);
                }
            }
            assert forall|q: Seq<Kind>| #[trigger] self.walks(q) implies old(self).walks(q) || is_prefix(
                q,
                t,
            ) by {
                if q[0] == k {
                    let rest = q.drop_first();
                    assert(after.walk(rest) is Some);
                    if is_prefix(rest, t1) {
                        lemma_prefix_behind(q, t);
                    } else {
                        assert(before.walk(rest) is Some);
                        if old(self).child(k) is None {
                            lemma_bare_walks_nothing(before, rest);
                            lemma_prefix_behind(q, t);
                        }
                    }
                }
            }
        }
    }
}

impl Arc {
    /// Whether this arc has an empty letter set and leads to a node without arcs.
    pub open spec fn is_bare(self) -> bool {
        self.letter_set@ == Set::<char>::empty() && self.next.arcs@.len() == 0
    }

    /// Whether the symbol `k` completes a stored form right after this arc.
    pub open spec fn completes(self, k: Kind) -> bool {
        match k {
            Kind::Char(c) => self.letter_set@.contains(c),
            Kind::Delim => false,
        }
    }

    /// The arc reached from this one along the symbols of `path`, if all the
    /// arcs on the way exist.
    pub open spec fn walk(self, path: Seq<Kind>) -> Option<Arc>
        decreases path.len(),
    {
        if path.len() == 0 {
            Some(self)
        } else {
            match self.next.child(path[0]) {
                Some(a) => a.walk(path.drop_first()),
                None => None,
            }
        }
    }

    /// Whether the form `q` is stored from this arc on: the arcs for all its
    /// symbols but the last exist, and the last of them carries the last
    /// symbol in its letter set.
    pub open spec fn accepts(self, q: Seq<Kind>) -> bool
        decreases q.len(),
    {
        if q.len() == 0 {
            false
        } else if q.len() == 1 {
            self.completes(q[0])
        } else {
            match self.next.child(q[0]) {
                Some(a) => a.accepts(q.drop_first()),
                None => false,
            }
        }
    }

    /// A bare arc.
    fn new() -> (a: Arc)
        ensures
            a.is_bare(),
    {
        Arc { letter_set: LetterSet::empty(), next: Node::new() }
    }

    /// The successor of this arc under the symbol `k`, if there is one.
    pub fn next_arc(&self, k: Kind) -> (r: Option<&Arc>)
        ensures
            match r {
                Some(a) => self.next.child(k) == Some(*a),
                None => self.next.child(k) is None,
            },
    {
        self.next.get(k)
    }

    /// Follows the first `len` symbols of `path` from this arc.
    pub fn follow<'a>(&'a self, path: &Vec<Kind>, len: usize) -> (r: Option<&'a Arc>)
        requires
            len <= path.len(),
        ensures
            match r {
                Some(a) => self.walk(path@.take(len as int)) == Some(*a),
                None => self.walk(path@.take(len as int)) is None,
            },
    {
        let mut cur: &Arc = self;
        let mut i: usize = 0;
        assert(path@.take(0) =~= Seq::<Kind>::empty());
        while i < len
            invariant
                i <= len <= path.len(),
                self.walk(path@.take(i as int)) == Some(*cur),
            decreases len - i,
        {
            proof {
                lemma_walk_push(*self, path@.take(i as int), path@[i as int]);
                assert(path@.take(i + 1) =~= path@.take(i as int).push(path@[i as int]));
            }
            match cur.next_arc(path[i]) {
                Some(a) => {
                    cur = a;
                },
                None => {
                    proof {
                        if self.walk(path@.take(len as int)) is Some {
                            lemma_walk_prefix(*self, path@.take(len as int), i + 1);
                            assert(path@.take(len as int).take(i + 1) =~= path@.take(i + 1));
                        }
                    }
                    return None;
                },
            }
            i += 1;
        }
        Some(cur)
    }

    /// Tests whether the form `path` is stored from this arc on.
    pub fn stores(&self, path: &Vec<Kind>) -> (b: bool)
        ensures
            b == self.accepts(path@),
    {
        let n = path.len();
        if n == 0 {
            return false;
        }
        proof {
            lemma_accepts_push(*self, path@.take(n - 1), path@[n - 1]);
            assert(path@.take(n - 1).push(path@[n - 1]) =~= path@);
        }
        match self.follow(path, n - 1) {
            Some(a) => match path[n - 1] {
                Kind::Char(c) => a.letter_set.contains(c),
                Kind::Delim => false,
            },
            None => false,
        }
    }

    /// Stores from this arc on the symbols of `path` from position `pos` on.
    fn add_word(&mut self, path: &Vec<Kind>, pos: usize)
        requires
            pos < path.len(),
            valid_path(path@),
            path@.last() is Char,
        ensures
            forall|q: Seq<Kind>| #[trigger]
                final(self).accepts(q) <==> old(self).accepts(q) || q == path@.skip(pos as int),
            forall|q: Seq<Kind>| old(self).walk(q) is Some ==> (#[trigger] final(self).walk(q)) is Some,
            final(self).walk(path@.skip(pos as int)) is Some,
            forall|q: Seq<Kind>|
                (#[trigger] final(self).walk(q)) is Some ==> old(self).walk(q) is Some || is_prefix(
                    q,
                    path@.skip(pos as int),
                ),
        decreases path.len() - pos, 1int,
    {
        let ghost t = path@.skip(pos as int);
        if pos + 1 == path.len() {
            let k = path[pos];
            assert(slot_of(path@[pos as int]) is Some);
            assert(k == path@.last());
            match k {
                Kind::Char(c) => {
                    self.letter_set.insert(c);
                    let s = self.next.ensure_arc(k);
                    proof {
                        assert(t =~= seq![k]);
                        assert forall|q: Seq<Kind>| #[trigger]
                            self.accepts(q) <==> old(self).accepts(q) || q == t by {
                            if q.len() == 1 {
                                if q[0] == k {
                                    assert(q =~= t);
                                }
                            } else if q.len() >= 2 {
                                if q[0] == k && old(self).next.child(k) is None {
                                    lemma_bare_accepts_nothing(self.next.child(k)->0, q.drop_first());
                                }
                            }
                        }
                        assert(t.drop_first().len() == 0);
                        assert(self.next.child(t[0])->0.walk(t.drop_first()) is Some);
                        assert forall|q: Seq<Kind>| (#[trigger] self.walk(q)) is Some implies old(
                            self,
                        ).walk(q) is Some || is_prefix(q, t) by {
                            if q.len() > 0 && q[0] == k && old(self).next.child(k) is None {
                                lemma_bare_walks_nothing(self.next.child(k)->0, q.drop_first());
                                lemma_prefix_behind(q, t);
                            }
                        }
                    }
                },
                Kind::Delim => {},
            }
        } else {
            self.next.add_word(path, pos);
            proof {
                assert forall|q: Seq<Kind>| #[trigger]
                    self.accepts(q) <==> old(self).accepts(q) || q == t by {
                    assert(self.next.accepts(q) <==> old(self).next.accepts(q) || q == t);
                }
                assert forall|q: Seq<Kind>| old(self).walk(q) is Some implies (#[trigger] self.walk(
                    q,
                )) is Some by {
                    if q.len() > 0 {
                        assert(old(self).next.walks(q));
                        assert(self.next.walks(q));
                    }
                }
                assert(self.next.walks(t));
                assert forall|q: Seq<Kind>| (#[trigger] self.walk(q)) is Some implies old(self).walk(
                    q,
                ) is Some || is_prefix(q, t) by {
                    if q.len() > 0 {
                        assert(self.next.walks(q));
                    }
                }
            }
        }
    }
}

/// A bare arc stores no form.
pub proof fn lemma_bare_accepts_nothing(a: Arc, q: Seq<Kind>)
    requires
        a.is_bare(),
    ensures
        !a.accepts(q),
{
}

/// No arc leaves a bare arc.
pub proof fn lemma_bare_walks_nothing(a: Arc, q: Seq<Kind>)
    requires
        a.is_bare(),
        a.walk(q) is Some,
    ensures
        q.len() == 0,
{
}

/// A path whose first symbol is that of `t`, and whose rest is empty or a
/// beginning of the rest of `t`, is a beginning of `t`.
pub proof fn lemma_prefix_behind(q: Seq<Kind>, t: Seq<Kind>)
    requires
        q.len() > 0,
        t.len() > 0,
        q[0] == t[0],
        q.len() == 1 || is_prefix(q.drop_first(), t.drop_first()),
    ensures
        is_prefix(q, t),
{
    if q.len() > 1 {
        let rest = q.drop_first();
        assert forall|j: int| 0 <= j < q.len() implies q[j] == t[j] by {
            if j > 0 {
                assert(rest[j - 1] == q[j]);
                assert(rest[j - 1] == t.drop_first().take(rest.len() as int)[j - 1]);
            }
        }
    }
    assert(q =~= t.take(q.len() as int));
}

/// Walking one symbol further: the arc reached along `p` followed by `k` is
/// the successor under `k` of the arc reached along `p`.
pub proof fn lemma_walk_push(a: Arc, p: Seq<Kind>, k: Kind)
    ensures
        a.walk(p.push(k)) == match a.walk(p) {
            Some(b) => b.next.child(k),
            None => None,
        },
    decreases p.len(),
{
    let pk = p.push(k);
    if p.len() == 0 {
        assert(pk.drop_first() =~= Seq::<Kind>::empty());
        match a.next.child(k) {
            Some(b) => {
                assert(b.walk(pk.drop_first()) == Some(b));
            },
            None => {},
        }
    } else {
        assert(pk[0] == p[0]);
        assert(pk.drop_first() =~= p.drop_first().push(k));
        match a.next.child(p[0]) {
            Some(b) => {
                lemma_walk_push(b, p.drop_first(), k);
            },
            None => {},
        }
    }
}

/// A form is stored exactly when the arc reached along all its symbols but
/// the last carries the last one in its letter set.
pub proof fn lemma_accepts_push(a: Arc, p: Seq<Kind>, k: Kind)
    ensures
        a.accepts(p.push(k)) == match a.walk(p) {
            Some(b) => b.completes(k),
            None => false,
        },
    decreases p.len(),
{
    let pk = p.push(k);
    if p.len() == 0 {
        assert(pk[0] == k);
    } else {
        assert(pk[0] == p[0]);
        assert(pk.drop_first() =~= p.drop_first().push(k));
        match a.next.child(p[0]) {
            Some(b) => {
                lemma_accepts_push(b, p.drop_first(), k);
            },
            None => {},
        }
    }
}

/// Where a path can be walked, so can each of its beginnings.
pub proof fn lemma_walk_prefix(a: Arc, p: Seq<Kind>, n: int)
    requires
        0 <= n <= p.len(),
        a.walk(p) is Some,
    ensures
        a.walk(p.take(n)) is Some,
    decreases p.len(),
{
    if n > 0 {
        assert(p.take(n)[0] == p[0]);
        assert(p.take(n).drop_first() =~= p.drop_first().take(n - 1));
        lemma_walk_prefix(a.next.child(p[0])->0, p.drop_first(), n - 1);
    }
}

/// A stored form has a slot for each of its symbols and ends in a letter.
pub proof fn lemma_accepts_valid(a: Arc, q: Seq<Kind>)
    requires
        a.accepts(q),
    ensures
        valid_path(q),
        q.last() is Char,
    decreases q.len(),
{
    if q.len() >= 2 {
        let b = a.next.child(q[0])->0;
        lemma_accepts_valid(b, q.drop_first());
        assert forall|j: int| 0 <= j < q.len() implies (#[trigger] slot_of(q[j])) is Some by {
            if j > 0 {
                assert(q[j] == q.drop_first()[j - 1]);
            }
        }
        assert(q.last() == q.drop_first().last());
    }
}

/// The rotated forms of a valid word have a slot for each symbol and end in a letter.
pub proof fn lemma_rotation_valid(w: Seq<char>, i: int)
    requires
        valid_word(w),
        1 <= i <= w.len(),
    ensures
        valid_path(rotation(w, i)),
        rotation(w, i).len() > 0,
        rotation(w, i).last() is Char,
{
    let r = rotation(w, i);
    assert forall|j: int| 0 <= j < r.len() implies (#[trigger] slot_of(r[j])) is Some by {
        if j < i {
            assert(is_letter(w[i - 1 - j]));
        } else if j > i {
            assert(is_letter(w[j - 1]));
        }
    }
}

/// Copies the characters of `word` into a vector.
pub fn word_chars(word: &str) -> (v: Vec<char>)
    ensures
        v@ == word@,
{
    let n = word.unicode_len();
    let mut v: Vec<char> = Vec::new();
    let mut i: usize = 0;
    while i < n
        invariant
            n == word@.len(),
            i <= n,
            v@ == word@.take(i as int),
        decreases n - i,
    {
        v.push(word.get_char(i));
        assert(word@.take(i + 1) =~= word@.take(i as int).push(word@[i as int]));
        i += 1;
    }
    assert(word@.take(n as int) =~= word@);
    v
}

/// Tests whether `chars` is a word that the graph can store.
pub fn is_valid_word(chars: &Vec<char>) -> (b: bool)
    ensures
        b == valid_word(chars@),
{
    if chars.len() == 0 {
        return false;
    }
    let mut i: usize = 0;
    while i < chars.len()
        invariant
            i <= chars.len(),
            forall|j: int| 0 <= j < i ==> is_letter(#[trigger] chars@[j]),
        decreases chars.len() - i,
    {
        if !check_letter(char_at(chars, i)) {
            return false;
        }
        i += 1;
    }
    true
}

/// Builds the rotated form of `chars` split after its first `i` letters.
pub fn rotation_path(chars: &Vec<char>, i: usize) -> (path: Vec<Kind>)
    requires
        1 <= i <= chars.len(),
    ensures
        path@ == rotation(chars@, i as int),
{
    let n = chars.len();
    let ghost r = rotation(chars@, i as int);
    let mut path: Vec<Kind> = Vec::new();
    let mut j: usize = 0;
    while j < i
        invariant
            j <= i <= n,
            n == chars.len(),
            r == rotation(chars@, i as int),
            path@.len() == j,
            forall|t: int| 0 <= t < j ==> path@[t] == r[t],
        decreases i - j,
    {
        let c: char = char_at(chars, i - 1 - j);
        path.push(Kind::Char(c));
        j += 1;
    }
    if i < n {
        path.push(Kind::Delim);
        let mut j: usize = i;
        while j < n
            invariant
                i <= j <= n,
                i < n,
                n == chars.len(),
                r == rotation(chars@, i as int),
                path@.len() == j + 1,
                forall|t: int| 0 <= t < j + 1 ==> path@[t] == r[t],
            decreases n - j,
        {
            let c: char = char_at(chars, j);
            path.push(Kind::Char(c));
            j += 1;
        }
    }
    assert(path@ =~= r);
    path
}

impl View for Graph {
    type V = Set<Seq<char>>;

    /// The dictionary: the words whose reversal is a stored form.
    open spec fn view(&self) -> Set<Seq<char>> {
        Set::new(|w: Seq<char>| self.init.accepts(rotation(w, w.len() as int)))
    }
}

impl Graph {
    /// The graph's invariant: the stored forms are exactly the rotated forms
    /// of the dictionary's words, each of them is a path of arcs from the
    /// initial arc, and there is no other path: every path of arcs from the
    /// initial arc is a beginning of a rotated form of a word of the
    /// dictionary.
    pub open spec fn wf(&self) -> bool {
        &&& forall|q: Seq<Kind>| #[trigger] self.init.accepts(q) <==> is_rotation_in(self@, q)
        &&& forall|q: Seq<Kind>| self.init.accepts(q) ==> (#[trigger] self.init.walk(q)) is Some
        &&& self.no_other_path()
    }

    /// Whether every path of arcs from the initial arc is a beginning of a
    /// rotated form of a word of the dictionary.
    #[verifier::opaque]
    pub open spec fn no_other_path(&self) -> bool {
        forall|q: Seq<Kind>| (#[trigger] self.init.walk(q)) is Some && q.len() > 0 ==> is_path_in(self@, q)
    }

    /// A graph with an empty dictionary: its initial arc has an empty letter
    /// set, and no arc leaves it.
    pub fn new() -> (g: Graph)
        ensures
            g.wf(),
            g@ == Set::<Seq<char>>::empty(),
            g.init.is_bare(),
    {
        let g = Graph { init: Arc::new() };
        proof {
            assert forall|q: Seq<Kind>| !(#[trigger] g.init.accepts(q)) by {
                lemma_bare_accepts_nothing(g.init, q);
            }
            assert(g@ =~= Set::<Seq<char>>::empty());
            reveal(Graph::no_other_path);
            assert forall|q: Seq<Kind>| (#[trigger] g.init.walk(q)) is Some && q.len() > 0 implies is_path_in(
                g@,
                q,
            ) by {
                lemma_bare_walks_nothing(g.init, q);
            }
        }
        g
    }

    /// The arc from which every walk starts.
    pub fn initial_arc(&self) -> (a: &Arc)
        ensures
            *a == self.init,
    {
        &self.init
    }

    /// Adds the characters `chars` as a word to the dictionary, in all its
    /// rotated forms.  What was stored stays: every path of arcs and every
    /// letter of a letter set.  Where the dictionary holds the word already,
    /// the graph stays as it is.
    pub fn add_chars(&mut self, chars: &Vec<char>)
        requires
            old(self).wf(),
            valid_word(chars@),
        ensures
            final(self).wf(),
            final(self)@ == old(self)@.insert(chars@),
            forall|q: Seq<Kind>| old(self).init.walk(q) is Some ==> (#[trigger] final(self).init.walk(q)) is Some,
            forall|q: Seq<Kind>| old(self).init.accepts(q) ==> #[trigger] final(self).init.accepts(q),
            old(self)@.contains(chars@) ==> *final(self) == *old(self),
    {
        let n = chars.len();
        let ghost w = chars@;
        let mut i: usize = 0;
        while i < n
            invariant
                i <= n,
                n == chars.len(),
                w == chars@,
                valid_word(w),
                old(self).wf(),
                old(self)@.contains(w) ==> *self == *old(self),
                forall|q: Seq<Kind>|
                    (#[trigger] self.init.walk(q)) is Some ==> old(self).init.walk(q) is Some || exists|j: int|
                        1 <= j <= i && is_prefix(q, #[trigger] rotation(w, j)),
                forall|q: Seq<Kind>| #[trigger]
                    self.init.accepts(q) <==> old(self).init.accepts(q) || exists|j: int|
                        1 <= j <= i && q == #[trigger] rotation(w, j),
                forall|q: Seq<Kind>|
                    old(self).init.walk(q) is Some ==> (#[trigger] self.init.walk(q)) is Some,
                forall|j: int| 1 <= j <= i ==> (#[trigger] self.init.walk(rotation(w, j))) is Some,
            decreases n - i,
        {
            let path = rotation_path(chars, i + 1);
            let ghost before = self.init;
            proof {
                lemma_rotation_valid(w, i + 1);
                if old(self)@.contains(w) {
                    old(self).lemma_any_rotation(w, i + 1);
                }
                assert(path@.take(path@.len() as int) =~= path@);
            }
            // a form that is stored with all its arcs needs no change
            let present = self.init.stores(&path) && self.init.follow(&path, path.len()).is_some();
            if !present {
                self.init.add_word(&path, 0);
            }
            proof {
                assert(path@.skip(0) =~= path@);
                assert forall|q: Seq<Kind>|
                    (#[trigger] self.init.walk(q)) is Some implies old(self).init.walk(q) is Some || exists|
                    j: int,
                | 1 <= j <= i + 1 && is_prefix(q, #[trigger] rotation(w, j)) by {
                    if before.walk(q) is Some {
                        if !(old(self).init.walk(q) is Some) {
                            let j = choose|j: int| 1 <= j <= i && is_prefix(q, #[trigger] rotation(w, j));
                            assert(1 <= j <= i + 1 && is_prefix(q, rotation(w, j)));
                        }
                    } else {
                        assert(1 <= i + 1 <= i + 1 && is_prefix(q, rotation(w, i + 1)));
                    }
                }
                assert forall|q: Seq<Kind>| #[trigger]
                    self.init.accepts(q) <==> old(self).init.accepts(q) || exists|j: int|
                        1 <= j <= i + 1 && q == #[trigger] rotation(w, j) by {
                    assert(self.init.accepts(q) <==> before.accepts(q) || q == path@);
                    if before.accepts(q) && !old(self).init.accepts(q) {
                        let j = choose|j: int| 1 <= j <= i && q == #[trigger] rotation(w, j);
                        assert(1 <= j <= i + 1 && q == rotation(w, j));
                    }
                    if q == path@ {
                        assert(1 <= i + 1 <= i + 1 && q == rotation(w, i + 1));
                    }
                    if exists|j: int| 1 <= j <= i + 1 && q == #[trigger] rotation(w, j) {
                        let j = choose|j: int| 1 <= j <= i + 1 && q == #[trigger] rotation(w, j);
                        if j <= i {
                            assert(before.accepts(q));
                        }
                    }
                }
                assert forall|q: Seq<Kind>| old(self).init.walk(q) is Some implies (
                #[trigger] self.init.walk(q)) is Some by {
                    assert(before.walk(q) is Some);
                }
                assert forall|j: int| 1 <= j <= i + 1 implies (#[trigger] self.init.walk(
                    rotation(w, j),
                )) is Some by {
                    if j <= i {
                        assert(before.walk(rotation(w, j)) is Some);
                    }
                }
            }
            i += 1;
        }
        proof {
            let d = old(self)@;
            assert forall|v: Seq<char>| self@.contains(v) == d.insert(w).contains(v) by {
                let q = rotation(v, v.len() as int);
                if self@.contains(v) && !d.contains(v) {
                    let j = choose|j: int| 1 <= j <= n && q == #[trigger] rotation(w, j);
                    lemma_rotation_valid(w, j);
                    lemma_rotation_injective(v, v.len() as int, w, j);
                }
                if v == w {
                    assert(1 <= n <= n && q == rotation(w, n as int));
                }
            }
            assert(self@ =~= d.insert(w));
            assert forall|q: Seq<Kind>| #[trigger]
                self.init.accepts(q) <==> is_rotation_in(self@, q) by {
                if self.init.accepts(q) {
                    if old(self).init.accepts(q) {
                        let (v, j) = choose|v: Seq<char>, j: int|
                            d.contains(v) && 1 <= j <= v.len() && q == #[trigger] rotation(v, j);
                        assert(self@.contains(v) && 1 <= j <= v.len() && q == rotation(v, j));
                    } else {
                        let j = choose|j: int| 1 <= j <= n && q == #[trigger] rotation(w, j);
                        assert(self@.contains(w) && 1 <= j <= w.len() && q == rotation(w, j));
                    }
                }
                if is_rotation_in(self@, q) {
                    let (v, j) = choose|v: Seq<char>, j: int|
                        self@.contains(v) && 1 <= j <= v.len() && q == #[trigger] rotation(v, j);
                    if d.contains(v) {
                        assert(is_rotation_in(d, q));
                    } else {
                        assert(v == w);
                        assert(1 <= j <= n && q == rotation(w, j));
                    }
                }
            }
            assert forall|q: Seq<Kind>| self.init.accepts(q) implies (#[trigger] self.init.walk(
                q,
            )) is Some by {
                if old(self).init.accepts(q) {
                    assert(old(self).init.walk(q) is Some);
                } else {
                    let j = choose|j: int| 1 <= j <= n && q == #[trigger] rotation(w, j);
                    assert(self.init.walk(rotation(w, j)) is Some);
                }
            }
            reveal(Graph::no_other_path);
            assert forall|q: Seq<Kind>| (#[trigger] self.init.walk(q)) is Some && q.len() > 0 implies is_path_in(
                self@,
                q,
            ) by {
                if old(self).init.walk(q) is Some {
                    let (v, j) = choose|v: Seq<char>, j: int|
                        d.contains(v) && 1 <= j <= v.len() && is_prefix(q, #[trigger] rotation(v, j));
                    assert(self@.contains(v) && 1 <= j <= v.len() && is_prefix(q, rotation(v, j)));
                } else {
                    let j = choose|j: int| 1 <= j <= n && is_prefix(q, #[trigger] rotation(w, j));
                    assert(self@.contains(w) && 1 <= j <= w.len() && is_prefix(q, rotation(w, j)));
                }
            }
        }
    }

    /// Adds `word` to the dictionary, in all its rotated forms.  What was
    /// stored stays: every path of arcs and every letter of a letter set.
    /// Adding a word again changes nothing.
    pub fn add_word(&mut self, word: &str)
        requires
            old(self).wf(),
            valid_word(word@),
        ensures
            final(self).wf(),
            final(self)@ == old(self)@.insert(word@),
            forall|q: Seq<Kind>| old(self).init.walk(q) is Some ==> (#[trigger] final(self).init.walk(q)) is Some,
            forall|q: Seq<Kind>| old(self).init.accepts(q) ==> #[trigger] final(self).init.accepts(q),
            old(self)@.contains(word@) ==> *final(self) == *old(self),
    {
        let chars = word_chars(word);
        self.add_chars(&chars);
    }

    /// Looks `chars` up in the dictionary by walking its rotated form split
    /// after the first `split` letters.  Every split gives the same answer.
    pub fn has_word(&self, chars: &Vec<char>, split: usize) -> (b: bool)
        requires
            self.wf(),
            1 <= split <= chars.len(),
        ensures
            b == self@.contains(chars@),
    {
        let path = rotation_path(chars, split);
        proof {
            self.lemma_any_rotation(chars@, split as int);
        }
        self.init.stores(&path)
    }

    /// Looks `word` up in the dictionary.
    pub fn contains(&self, word: &str) -> (b: bool)
        requires
            self.wf(),
        ensures
            b == self@.contains(word@),
    {
        let chars = word_chars(word);
        if chars.len() == 0 {
            assert(rotation(chars@, 0).len() == 0);
            false
        } else {
            self.has_word(&chars, chars.len())
        }
    }

    /// The words of the dictionary are non-empty and made of letters.
    pub proof fn lemma_words_are_valid(&self, w: Seq<char>)
        requires
            self@.contains(w),
        ensures
            valid_word(w),
    {
        let q = rotation(w, w.len() as int);
        lemma_accepts_valid(self.init, q);
        assert forall|i: int| 0 <= i < w.len() implies is_letter(#[trigger] w[i]) by {
            assert(slot_of(q[w.len() - 1 - i]) is Some);
        }
    }

    /// A word is in the dictionary exactly when any one of its rotated forms is stored.
    pub proof fn lemma_any_rotation(&self, w: Seq<char>, i: int)
        requires
            self.wf(),
            1 <= i <= w.len(),
        ensures
            self.init.accepts(rotation(w, i)) == self@.contains(w),
            self@.contains(w) ==> self.init.walk(rotation(w, i)) is Some,
    {
        let q = rotation(w, i);
        if self.init.accepts(q) {
            let (v, j) = choose|v: Seq<char>, j: int|
                self@.contains(v) && 1 <= j <= v.len() && q == #[trigger] rotation(v, j);
            lemma_rotation_injective(w, i, v, j);
        }
        if self@.contains(w) {
            assert(self@.contains(w) && 1 <= i <= w.len() && q == rotation(w, i));
            assert(is_rotation_in(self@, q));
        }
    }

    /// The paths of arcs from the initial arc are the beginnings of the
    /// rotated forms of the dictionary's words, and no others.
    pub proof fn lemma_paths(&self, q: Seq<Kind>)
        requires
            self.wf(),
        ensures
            self.init.walk(q) is Some <==> q.len() == 0 || is_path_in(self@, q),
    {
        reveal(Graph::no_other_path);
        if is_path_in(self@, q) {
            let (w, i) = choose|w: Seq<char>, i: int|
                self@.contains(w) && 1 <= i <= w.len() && is_prefix(q, #[trigger] rotation(w, i));
            self.lemma_any_rotation(w, i);
            lemma_walk_prefix(self.init, rotation(w, i), q.len() as int);
        }
    }

    /// The letter set of the arc reached along `q` holds the letters that
    /// make `q` a rotated form of a word of the dictionary when they come next.
    pub proof fn lemma_letter_sets(&self, q: Seq<Kind>, c: char)
        requires
            self.wf(),
            self.init.walk(q) is Some,
        ensures
            self.init.walk(q)->0.letter_set@.contains(c) <==> is_rotation_in(self@, q.push(Kind::Char(c))),
    {
        lemma_accepts_push(self.init, q, Kind::Char(c));
    }

    /// The dictionary determines the graph: two graphs with the same
    /// dictionary have the same paths of arcs, with the same letter set on
    /// each arc.  So the order in which words were added makes no
    /// difference, nor does adding a word again.
    pub proof fn lemma_dictionary_determines(&self, other: &Graph, q: Seq<Kind>)
        requires
            self.wf(),
            other.wf(),
            self@ == other@,
        ensures
            self.init.walk(q) is Some <==> other.init.walk(q) is Some,
            self.init.walk(q) is Some ==> self.init.walk(q)->0.letter_set@ == other.init.walk(q)->0.letter_set@,
    {
        self.lemma_paths(q);
        other.lemma_paths(q);
        if self.init.walk(q) is Some {
            let a = self.init.walk(q)->0.letter_set@;
            let b = other.init.walk(q)->0.letter_set@;
            assert forall|c: char| a.contains(c) == b.contains(c) by {
                self.lemma_letter_sets(q, c);
                other.lemma_letter_sets(q, c);
            }
            assert(a =~= b);
        }
    }
}

} // verus!
