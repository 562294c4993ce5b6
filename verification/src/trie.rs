//! The prefix tree and its three operations: insertion, exact membership
//! lookup, and prefix enumeration.

use vstd::prelude::*;
use vstd::string::StrSliceExecFns;
use vstd::string::StringExecFns;

verus! {

/// Relies on `String::push`: it appends the given character to the end of
/// the string, so the new contents are the old contents followed by `c`.
#[verifier::external_body]
fn push_char(s: &mut String, c: char)
    ensures
        final(s)@ == old(s)@.push(c),
{
    s.push(c);
}

/// The key set after one insertion: unchanged for the empty string, which is
/// never storable, and grown by the key otherwise.
pub open spec fn keys_after_insert(ks: Set<Seq<char>>, k: Seq<char>) -> Set<Seq<char>> {
    if k.len() == 0 {
        ks
    } else {
        ks.insert(k)
    }
}

/// The keys of `ks` that start with the prefix `p`.
pub open spec fn keys_with_prefix(ks: Set<Seq<char>>, p: Seq<char>) -> Set<Seq<char>> {
    Set::new(|k: Seq<char>| ks.contains(k) && p.is_prefix_of(k))
}

/// The characters of a string, as a vector.
fn str_chars_vec(s: &str) -> (v: Vec<char>)
    ensures
        v@ == s@,
{
    let n = s.unicode_len();
    let mut v: Vec<char> = Vec::new();
    let mut i: usize = 0;
    while i < n
        invariant
            i <= n,
            n == s@.len(),
            v@ == s@.take(i as int),
        decreases n - i,
    {
        let c = s.get_char(i);
        v.push(c);
        i += 1;
        proof {
            assert(v@ =~= s@.take(i as int));
        }
    }
    proof {
        assert(v@ =~= s@);
    }
    v
}

/// One node of the prefix tree: an edge list mapping each label character to
/// the exclusively owned child it leads to, and a flag that is true exactly
/// when some stored key ends at this node.
pub struct TrieNode {
    pub children: Vec<(char, TrieNode)>,
    pub is_end_of_word: bool,
}

/// Whether the path spelled by `s` leads from `n` to a terminal node: `s` is
/// a member of the subtree rooted at `n`.
pub open spec fn node_has(n: TrieNode, s: Seq<char>) -> bool
    decreases s.len(),
{
    if s.len() == 0 {
        n.is_end_of_word
    } else {
        exists|i: int|
            0 <= i < n.children@.len() && (#[trigger] n.children@[i]).0 == s[0] && node_has(
                n.children@[i].1,
                s.drop_first(),
            )
    }
}

/// Well-formedness of a node: sibling edge labels are distinct, recursively
/// in every subtree. Distinct labels make the edge list a mapping, so each
/// character names at most one child.
pub open spec fn node_wf(n: TrieNode) -> bool
    decreases n,
{
    &&& (forall|i: int, j: int|
        0 <= i < j < n.children@.len() ==> (#[trigger] n.children@[i]).0 != (
        #[trigger] n.children@[j]).0)
    &&& (forall|i: int|
        0 <= i < n.children@.len() ==> node_wf((#[trigger] n.children@[i]).1))
}

impl TrieNode {
    /// A fresh node: no outgoing edges, not terminal, so no member at all.
    pub fn new() -> (n: TrieNode)
        ensures
            node_wf(n),
            forall|s: Seq<char>| !node_has(n, s),
            !n.is_end_of_word,
            n.children@.len() == 0,
    {
        let n = TrieNode { children: Vec::new(), is_end_of_word: false };
        proof {
            assert forall|s: Seq<char>| !node_has(n, s) by {
                if s.len() == 0 {
                }
            }
        }
        n
    }
}

/// With distinct sibling labels, membership of a non-empty path `s` goes
/// exactly through the one child whose label is `s`'s first character.
proof fn lemma_step(n: TrieNode, s: Seq<char>, j: int)
    requires
        node_wf(n),
        s.len() > 0,
        0 <= j < n.children@.len(),
        n.children@[j].0 == s[0],
    ensures
        node_has(n, s) == node_has(n.children@[j].1, s.drop_first()),
{
    if node_has(n, s) {
        let i = choose|i: int|
            0 <= i < n.children@.len() && (#[trigger] n.children@[i]).0 == s[0] && node_has(
                n.children@[i].1,
                s.drop_first(),
            );
        assert(i == j);
    }
}

/// When no edge at `n` carries `s`'s first character, the path `s` leads
/// nowhere: `s` is not a member of the subtree rooted at `n`.
proof fn lemma_no_edge(n: TrieNode, s: Seq<char>)
    requires
        s.len() > 0,
        forall|i: int| 0 <= i < n.children@.len() ==> (#[trigger] n.children@[i]).0 != s[0],
    ensures
        !node_has(n, s),
{
}

/// Two nodes with the same edge list agree on every non-empty member path.
proof fn lemma_same_children(a: TrieNode, b: TrieNode, s: Seq<char>)
    requires
        a.children@ == b.children@,
        s.len() > 0,
    ensures
        node_has(a, s) == node_has(b, s),
{
    if node_has(a, s) {
        let i = choose|i: int|
            0 <= i < a.children@.len() && (#[trigger] a.children@[i]).0 == s[0] && node_has(
                a.children@[i].1,
                s.drop_first(),
            );
        assert((b.children@[i]).0 == s[0] && node_has(b.children@[i].1, s.drop_first()));
    }
    if node_has(b, s) {
        let i = choose|i: int|
            0 <= i < b.children@.len() && (#[trigger] b.children@[i]).0 == s[0] && node_has(
                b.children@[i].1,
                s.drop_first(),
            );
        assert((a.children@[i]).0 == s[0] && node_has(a.children@[i].1, s.drop_first()));
    }
}

/// Replacing the child at position `j` while keeping its label does not
/// change membership of any path that starts with a different character.
proof fn lemma_update_other(pre: TrieNode, post: TrieNode, j: int, s: Seq<char>)
    requires
        0 <= j < pre.children@.len(),
        post.children@ == pre.children@.update(j, (pre.children@[j].0, post.children@[j].1)),
        s.len() > 0,
        s[0] != pre.children@[j].0,
    ensures
        node_has(post, s) == node_has(pre, s),
{
    if node_has(pre, s) {
        let i = choose|i: int|
            0 <= i < pre.children@.len() && (#[trigger] pre.children@[i]).0 == s[0] && node_has(
                pre.children@[i].1,
                s.drop_first(),
            );
        assert(i != j);
        assert((post.children@[i]).0 == s[0] && node_has(post.children@[i].1, s.drop_first()));
    }
    if node_has(post, s) {
        let i = choose|i: int|
            0 <= i < post.children@.len() && (#[trigger] post.children@[i]).0 == s[0] && node_has(
                post.children@[i].1,
                s.drop_first(),
            );
        assert(i != j);
        assert((pre.children@[i]).0 == s[0] && node_has(pre.children@[i].1, s.drop_first()));
    }
}

/// A non-empty suffix of `key` starting at position `i` is determined by its
/// first character `key[i]` and the shorter suffix starting at `i + 1`.
proof fn lemma_suffix_split(key: Seq<char>, i: int, s: Seq<char>)
    requires
        0 <= i < key.len(),
        s.len() > 0,
    ensures
        (s == key.skip(i)) == (s[0] == key[i] && s.drop_first() == key.skip(i + 1)),
{
    assert(key.skip(i).len() == key.len() - i);
    assert(key.skip(i)[0] == key[i]);
    assert(key.skip(i).drop_first() =~= key.skip(i + 1));
    if s[0] == key[i] && s.drop_first() == key.skip(i + 1) {
        assert(s.len() == key.skip(i).len());
        assert forall|x: int| 0 <= x < s.len() implies s[x] == key.skip(i)[x] by {
            if x > 0 {
                assert(s[x] == s.drop_first()[x - 1]);
                assert(key.skip(i + 1)[x - 1] == key[i + x]);
            }
        }
        assert(s =~= key.skip(i));
    }
}

impl TrieNode {
    /// Extends the tree below `self` so that the suffix of `key` from
    /// position `i` becomes a member, creating missing edges on the way and
    /// marking the node the suffix ends at. No other member is gained or
    /// lost, and `self` only becomes terminal when the suffix is empty.
    fn insert_at(&mut self, key: &Vec<char>, i: usize)
        requires
            node_wf(*old(self)),
            i <= key@.len(),
        ensures
            node_wf(*final(self)),
            final(self).is_end_of_word == (old(self).is_end_of_word || i == key@.len()),
            forall|s: Seq<char>|
                node_has(*final(self), s) == (node_has(*old(self), s) || s == key@.skip(i as int)),
        decreases key@.len() - i,
    {
        if i == key.len() {
            self.is_end_of_word = true;
            proof {
                assert forall|s: Seq<char>|
                    node_has(*self, s) == (node_has(*old(self), s) || s == key@.skip(
                        i as int,
                    )) by {
                    if s.len() == 0 {
                        assert(s =~= key@.skip(i as int));
                    } else {
                        lemma_same_children(*old(self), *self, s);
                    }
                }
            }
            return;
        }
        let c = key[i];
        let j: usize;
        match find_child(&self.children, c) {
            Some(found) => {
                j = found;
            },
            None => {
                j = self.children.len();
                self.children.push((c, TrieNode::new()));
                proof {
                    assert forall|s: Seq<char>|
                        node_has(*self, s) == node_has(*old(self), s) by {
                        if s.len() == 0 {
                        } else if s[0] == c {
                            lemma_no_edge(*old(self), s);
                            lemma_step(*self, s, j as int);
                        } else {
                            if node_has(*old(self), s) {
                                let x = choose|x: int|
                                    0 <= x < old(self).children@.len() && (#[trigger] old(
                                        self,
                                    ).children@[x]).0 == s[0] && node_has(
                                        old(self).children@[x].1,
                                        s.drop_first(),
                                    );
                                assert((self.children@[x]).0 == s[0] && node_has(
                                    self.children@[x].1,
                                    s.drop_first(),
                                ));
                            }
                            if node_has(*self, s) {
                                let x = choose|x: int|
                                    0 <= x < self.children@.len() && (#[trigger] self.children@[x]).0
                                        == s[0] && node_has(self.children@[x].1, s.drop_first());
                                assert(x != j as int);
                                assert((old(self).children@[x]).0 == s[0] && node_has(
                                    old(self).children@[x].1,
                                    s.drop_first(),
                                ));
                            }
                        }
                    }
                }
            },
        }
        let ghost pre = *self;
        assert(node_wf(pre));
        assert(pre.children@[j as int].0 == c);
        assert(forall|s: Seq<char>| node_has(pre, s) == node_has(*old(self), s));
        self.children[j].1.insert_at(key, i + 1);
        proof {
            let post = *self;
            let ch = post.children@[j as int].1;
            assert(post.children@ == pre.children@.update(
                j as int,
                (pre.children@[j as int].0, ch),
            ));
            assert forall|x: int| 0 <= x < post.children@.len() implies (
            #[trigger] post.children@[x]).0 == pre.children@[x].0 && node_wf(
                post.children@[x].1,
            ) by {
                if x != j as int {
                    assert(post.children@[x] == pre.children@[x]);
                }
            }
            assert(node_wf(post));
            assert forall|s: Seq<char>|
                node_has(post, s) == (node_has(*old(self), s) || s == key@.skip(i as int)) by {
                lemma_suffix_split(key@, i as int, key@.skip(i as int));
                if s.len() == 0 {
                    assert(s != key@.skip(i as int));
                } else {
                    lemma_suffix_split(key@, i as int, s);
                    if s[0] == c {
                        lemma_step(post, s, j as int);
                        lemma_step(pre, s, j as int);
                    } else {
                        lemma_update_other(pre, post, j as int, s);
                    }
                }
            }
        }
    }
}

/// Whether the string `s` is `acc` followed by some member path of `n`.
pub open spec fn member_entry(n: TrieNode, acc: Seq<char>, s: Seq<char>) -> bool {
    exists|t: Seq<char>| node_has(n, t) && s == #[trigger] (acc + t)
}

/// Whether `acc` followed by the path `t` stands in `cur` at some position
/// from `from` on.
pub open spec fn present(acc: Seq<char>, cur: Seq<String>, from: int, t: Seq<char>) -> bool {
    exists|i: int| from <= i < cur.len() && (#[trigger] cur[i])@ == acc + t
}

/// Whether every entry of `cur` from position `from` on is `acc` followed by
/// a member path of `n`.
pub open spec fn entries_are_members(
    n: TrieNode,
    acc: Seq<char>,
    cur: Seq<String>,
    from: int,
) -> bool {
    forall|i: int| from <= i < cur.len() ==> member_entry(n, acc, (#[trigger] cur[i])@)
}

/// Whether every member path of `n` stands, behind `acc`, in `cur` from
/// position `from` on.
pub open spec fn members_are_entries(
    n: TrieNode,
    acc: Seq<char>,
    cur: Seq<String>,
    from: int,
) -> bool {
    forall|t: Seq<char>| #[trigger] node_has(n, t) ==> present(acc, cur, from, t)
}

/// Whether the entries of `cur` from position `from` on are pairwise
/// distinct strings.
pub open spec fn entries_distinct(cur: Seq<String>, from: int) -> bool {
    forall|i: int, j: int| from <= i < j < cur.len() ==> (#[trigger] cur[i])@ != (#[trigger] cur[j])@
}

/// Whether `cur` extends `prev`: it is at least as long and agrees with it
/// position by position.
pub open spec fn extends(cur: Seq<String>, prev: Seq<String>) -> bool {
    prev.len() <= cur.len() && forall|i: int| 0 <= i < prev.len() ==> cur[i] == prev[i]
}

/// Whether the path `t` is empty or starts with one of the first `k` edge
/// labels of `n`.
spec fn edge_before(n: TrieNode, t: Seq<char>, k: int) -> bool {
    t.len() == 0 || exists|x: int| 0 <= x < k && (#[trigger] n.children@[x]).0 == t[0]
}

/// Whether `s` is `acc` followed by a member path of `n` that goes through
/// an edge among the first `k`.
spec fn entry_ok(n: TrieNode, acc: Seq<char>, s: Seq<char>, k: int) -> bool {
    exists|t: Seq<char>| node_has(n, t) && s == #[trigger] (acc + t) && edge_before(n, t, k)
}

/// The soundness invariant of the collection loop: every entry of `cur`
/// from `from` on was taken through one of the first `k` edges of `n`.
spec fn collected_sound(n: TrieNode, acc: Seq<char>, cur: Seq<String>, from: int, k: int) -> bool {
    forall|i: int| from <= i < cur.len() ==> entry_ok(n, acc, (#[trigger] cur[i])@, k)
}

/// The completeness invariant of the collection loop: every member path of
/// `n` through one of the first `k` edges already stands in `cur`.
spec fn collected_complete(
    n: TrieNode,
    acc: Seq<char>,
    cur: Seq<String>,
    from: int,
    k: int,
) -> bool {
    forall|t: Seq<char>|
        #[trigger] node_has(n, t) && edge_before(n, t, k) ==> present(acc, cur, from, t)
}

/// Before any edge of `n` is visited, the collection invariants hold: `cur`
/// holds exactly one new entry, `acc` itself, when `n` is terminal, and none
/// otherwise.
proof fn lemma_collect_init(n: TrieNode, acc: Seq<char>, r0: Seq<String>, cur: Seq<String>)
    requires
        extends(cur, r0),
        n.is_end_of_word ==> cur.len() == r0.len() + 1 && cur[r0.len() as int]@ == acc,
        !n.is_end_of_word ==> cur == r0,
    ensures
        collected_sound(n, acc, cur, r0.len() as int, 0),
        collected_complete(n, acc, cur, r0.len() as int, 0),
        entries_distinct(cur, r0.len() as int),
{
    assert(acc + Seq::<char>::empty() =~= acc);
    if n.is_end_of_word {
        assert forall|i: int| r0.len() <= i < cur.len() implies entry_ok(
            n,
            acc,
            (#[trigger] cur[i])@,
            0,
        ) by {
            let t = Seq::<char>::empty();
            assert(node_has(n, t) && cur[i]@ == acc + t && edge_before(n, t, 0));
        }
    }
    assert forall|t: Seq<char>| #[trigger] node_has(n, t) && edge_before(n, t, 0) implies present(
        acc,
        cur,
        r0.len() as int,
        t,
    ) by {
        assert(t.len() == 0);
        assert(t =~= Seq::<char>::empty());
        assert(n.is_end_of_word);
        assert((cur[r0.len() as int])@ == acc + t);
    }
}

/// Visiting one more edge keeps the soundness invariant: the entries taken
/// from the child below label `c` are member paths of `n` through that edge.
proof fn lemma_collect_sound_step(
    n: TrieNode,
    acc: Seq<char>,
    c: char,
    k: int,
    from: int,
    rk: Seq<String>,
    cur: Seq<String>,
)
    requires
        node_wf(n),
        0 <= k < n.children@.len(),
        n.children@[k].0 == c,
        0 <= from <= rk.len(),
        extends(cur, rk),
        collected_sound(n, acc, rk, from, k),
        entries_are_members(n.children@[k].1, acc.push(c), cur, rk.len() as int),
    ensures
        collected_sound(n, acc, cur, from, k + 1),
{
    assert forall|i: int| from <= i < cur.len() implies entry_ok(
        n,
        acc,
        (#[trigger] cur[i])@,
        k + 1,
    ) by {
        if i < rk.len() {
            let t = choose|t: Seq<char>|
                node_has(n, t) && (rk[i])@ == #[trigger] (acc + t) && edge_before(n, t, k);
            assert(cur[i] == rk[i]);
            assert(edge_before(n, t, k + 1));
            assert(node_has(n, t) && cur[i]@ == acc + t);
        } else {
            let tc = choose|tc: Seq<char>|
                node_has(n.children@[k].1, tc) && (cur[i])@ == #[trigger] (acc.push(c) + tc);
            let t = seq![c] + tc;
            assert(t.len() > 0 && t[0] == c);
            assert(t.drop_first() =~= tc);
            lemma_step(n, t, k);
            assert(acc + t =~= acc.push(c) + tc);
            assert(edge_before(n, t, k + 1));
            assert(node_has(n, t) && cur[i]@ == acc + t);
        }
    }
}

/// Visiting one more edge keeps the completeness invariant: a member path
/// through an edge among the first `k + 1` either went through an earlier
/// edge and was already present, or goes through the child below `c` and was
/// just appended.
proof fn lemma_collect_complete_step(
    n: TrieNode,
    acc: Seq<char>,
    c: char,
    k: int,
    from: int,
    rk: Seq<String>,
    cur: Seq<String>,
)
    requires
        node_wf(n),
        0 <= k < n.children@.len(),
        n.children@[k].0 == c,
        0 <= from <= rk.len(),
        extends(cur, rk),
        collected_complete(n, acc, rk, from, k),
        members_are_entries(n.children@[k].1, acc.push(c), cur, rk.len() as int),
    ensures
        collected_complete(n, acc, cur, from, k + 1),
{
    assert forall|t: Seq<char>|
        #[trigger] node_has(n, t) && edge_before(n, t, k + 1) implies present(
        acc,
        cur,
        from,
        t,
    ) by {
        if edge_before(n, t, k) {
            assert(present(acc, rk, from, t));
            let i = choose|i: int| from <= i < rk.len() && (#[trigger] rk[i])@ == acc + t;
            assert(cur[i] == rk[i]);
            assert(from <= i < cur.len() && (cur[i])@ == acc + t);
        } else {
            let x = choose|x: int| 0 <= x < k + 1 && (#[trigger] n.children@[x]).0 == t[0];
            assert(x == k);
            lemma_step(n, t, k);
            assert(node_has(n.children@[k].1, t.drop_first()));
            assert(present(acc.push(c), cur, rk.len() as int, t.drop_first()));
            let i = choose|i: int|
                rk.len() <= i < cur.len() && (#[trigger] cur[i])@ == acc.push(c) + t.drop_first();
            assert(acc + t =~= acc.push(c) + t.drop_first());
            assert(from <= i < cur.len() && (cur[i])@ == acc + t);
        }
    }
}

/// Visiting one more edge keeps the entries distinct: entries taken below
/// different edges differ at the first character past `acc`, and the entry
/// for `acc` itself is shorter than all of them.
proof fn lemma_collect_distinct_step(
    n: TrieNode,
    acc: Seq<char>,
    c: char,
    k: int,
    from: int,
    rk: Seq<String>,
    cur: Seq<String>,
)
    requires
        node_wf(n),
        0 <= k < n.children@.len(),
        n.children@[k].0 == c,
        0 <= from <= rk.len(),
        extends(cur, rk),
        collected_sound(n, acc, rk, from, k),
        entries_are_members(n.children@[k].1, acc.push(c), cur, rk.len() as int),
        entries_distinct(rk, from),
        entries_distinct(cur, rk.len() as int),
    ensures
        entries_distinct(cur, from),
{
    assert forall|i: int, j: int| from <= i < j < cur.len() implies (#[trigger] cur[i])@ != (
    #[trigger] cur[j])@ by {
        if j < rk.len() {
            assert(cur[i] == rk[i] && cur[j] == rk[j]);
        } else if i < rk.len() {
            assert(cur[i] == rk[i]);
            let t = choose|t: Seq<char>|
                node_has(n, t) && (rk[i])@ == #[trigger] (acc + t) && edge_before(n, t, k);
            let tc = choose|tc: Seq<char>|
                node_has(n.children@[k].1, tc) && (cur[j])@ == #[trigger] (acc.push(c) + tc);
            assert(cur[j]@.len() >= acc.len() + 1);
            if t.len() == 0 {
                assert(cur[i]@.len() == acc.len());
            } else {
                let x = choose|x: int| 0 <= x < k && (#[trigger] n.children@[x]).0 == t[0];
                assert(t[0] != c);
                assert(cur[i]@[acc.len() as int] == t[0]);
                assert(cur[j]@[acc.len() as int] == c);
            }
        }
    }
}

/// Once every edge of `n` has been visited, the two collection invariants
/// say exactly that the new entries are, behind `acc`, the member paths of
/// `n`: every non-empty member path starts with some edge label of `n`.
proof fn lemma_collect_finish(n: TrieNode, acc: Seq<char>, r0: Seq<String>, cur: Seq<String>)
    requires
        collected_sound(n, acc, cur, r0.len() as int, n.children@.len() as int),
        collected_complete(n, acc, cur, r0.len() as int, n.children@.len() as int),
    ensures
        entries_are_members(n, acc, cur, r0.len() as int),
        members_are_entries(n, acc, cur, r0.len() as int),
{
    assert forall|i: int| r0.len() <= i < cur.len() implies member_entry(
        n,
        acc,
        (#[trigger] cur[i])@,
    ) by {
        let t = choose|t: Seq<char>|
            node_has(n, t) && (cur[i])@ == #[trigger] (acc + t) && edge_before(
                n,
                t,
                n.children@.len() as int,
            );
        assert(node_has(n, t) && cur[i]@ == acc + t);
    }
    assert forall|t: Seq<char>| #[trigger] node_has(n, t) implies present(
        acc,
        cur,
        r0.len() as int,
        t,
    ) by {
        if t.len() > 0 {
            let x = choose|x: int|
                0 <= x < n.children@.len() && (#[trigger] n.children@[x]).0 == t[0] && node_has(
                    n.children@[x].1,
                    t.drop_first(),
                );
            assert(edge_before(n, t, n.children@.len() as int));
        } else {
            assert(edge_before(n, t, n.children@.len() as int));
        }
    }
}

/// With an enumeration that is sound (every entry is a stored key with the
/// prefix) and complete (every such key is an entry), the views of the
/// returned strings are, as a set, exactly the stored keys with the prefix.
proof fn lemma_result_set(ks: Set<Seq<char>>, p: Seq<char>, results: Vec<String>)
    requires
        forall|i: int|
            0 <= i < results@.len() ==> ks.contains((#[trigger] results@[i])@) && p.is_prefix_of(
                results@[i]@,
            ),
        forall|k: Seq<char>|
            #[trigger] ks.contains(k) && p.is_prefix_of(k) ==> exists|i: int|
                0 <= i < results@.len() && (#[trigger] results@[i])@ == k,
    ensures
        results.deep_view().to_set() == keys_with_prefix(ks, p),
{
    let rs = results.deep_view();
    assert forall|k: Seq<char>| #[trigger] rs.to_set().contains(k) implies keys_with_prefix(
        ks,
        p,
    ).contains(k) by {
        let x = choose|x: int| 0 <= x < rs.len() && rs[x] == k;
        assert(ks.contains(results@[x]@) && p.is_prefix_of(results@[x]@));
    }
    assert forall|k: Seq<char>| #[trigger] keys_with_prefix(ks, p).contains(k) implies rs.to_set()
        .contains(k) by {
        let x = choose|x: int| 0 <= x < results@.len() && (#[trigger] results@[x])@ == k;
        assert(rs[x] == k);
        assert(rs.contains(k));
    }
    assert(rs.to_set() =~= keys_with_prefix(ks, p));
}

/// The autocomplete index: a prefix tree with a single root node that the
/// empty prefix names. The root is never terminal, because the empty string
/// is never a storable key.
pub struct AutocompleteSystem {
    pub root: TrieNode,
}

impl AutocompleteSystem {
    /// Well-formedness of the whole index: the tree is well formed and the
    /// root is not terminal.
    pub open spec fn wf(self) -> bool {
        node_wf(self.root) && !self.root.is_end_of_word
    }

    /// The key set of the index: every non-empty string whose path from the
    /// root ends at a terminal node. This set is what `contains` and
    /// `starts_with` answer from, and what `insert` grows.
    pub open spec fn keys(self) -> Set<Seq<char>> {
        Set::new(|s: Seq<char>| s.len() > 0 && node_has(self.root, s))
    }

    /// A fresh index: well formed and with an empty key set.
    pub fn new() -> (t: AutocompleteSystem)
        ensures
            t.wf(),
            t.keys() == Set::<Seq<char>>::empty(),
    {
        let t = AutocompleteSystem { root: TrieNode::new() };
        proof {
            assert(t.keys() =~= Set::<Seq<char>>::empty());
        }
        t
    }

    /// Stores `username` in the index. The empty string is refused silently
    /// and the index is left exactly as it was; any other key joins the key
    /// set, and nothing else changes, so inserting a key a second time makes
    /// no observable difference.
    pub fn insert(&mut self, username: &str)
        requires
            old(self).wf(),
        ensures
            final(self).wf(),
            final(self).keys() == keys_after_insert(old(self).keys(), username@),
            username@.len() == 0 ==> *final(self) == *old(self),
    {
        if username.is_empty() {
            return;
        }
        let chars = str_chars_vec(username);
        self.root.insert_at(&chars, 0);
        proof {
            assert(username@.skip(0) =~= username@);
            assert(self.keys() =~= keys_after_insert(old(self).keys(), username@));
        }
    }

    /// Exact membership lookup: true exactly when `username` is in the key
    /// set — non-empty, inserted earlier, and ending at a terminal node. The
    /// empty string is never a member. A pure read: the index is unchanged.
    pub fn contains(&self, username: &str) -> (r: bool)
        requires
            self.wf(),
        ensures
            r == self.keys().contains(username@),
    {
        let chars = str_chars_vec(username);
        let mut node: &TrieNode = &self.root;
        let mut i: usize = 0;
        proof {
            assert(username@.skip(0) =~= username@);
        }
        while i < chars.len()
            invariant
                i <= chars@.len(),
                chars@ == username@,
                self.wf(),
                node_wf(*node),
                node_has(self.root, username@) == node_has(*node, username@.skip(i as int)),
            decreases chars@.len() - i,
        {
            let c = chars[i];
            match find_child(&node.children, c) {
                Some(j) => {
                    proof {
                        lemma_step(*node, username@.skip(i as int), j as int);
                        assert(username@.skip(i as int).drop_first() =~= username@.skip(
                            i as int + 1,
                        ));
                    }
                    node = &node.children[j].1;
                    i += 1;
                },
                None => {
                    proof {
                        lemma_no_edge(*node, username@.skip(i as int));
                    }
                    return false;
                },
            }
        }
        proof {
            assert(username@.skip(i as int) =~= Seq::<char>::empty());
        }
        node.is_end_of_word
    }

    /// Exhaustive collection over the subtree rooted at `node`: appends to
    /// `results`, once each, the concatenation of `prefix` with every member
    /// path of that subtree. Entries already in `results` stay as they are,
    /// and the appended entries are pairwise distinct.
    pub fn dfs(&self, node: &TrieNode, prefix: &str, results: &mut Vec<String>)
        requires
            node_wf(*node),
        ensures
            extends(final(results)@, old(results)@),
            entries_are_members(*node, prefix@, final(results)@, old(results)@.len() as int),
            members_are_entries(*node, prefix@, final(results)@, old(results)@.len() as int),
            entries_distinct(final(results)@, old(results)@.len() as int),
        decreases *node,
    {
        let ghost r0 = results@;
        let ghost acc = prefix@;
        if node.is_end_of_word {
            let s = String::from_str(prefix);
            results.push(s);
        }
        proof {
            lemma_collect_init(*node, acc, r0, results@);
        }
        let mut k: usize = 0;
        while k < node.children.len()
            invariant
                node_wf(*node),
                k <= node.children@.len(),
                acc == prefix@,
                extends(results@, r0),
                collected_sound(*node, acc, results@, r0.len() as int, k as int),
                collected_complete(*node, acc, results@, r0.len() as int, k as int),
                entries_distinct(results@, r0.len() as int),
            decreases node.children@.len() - k,
        {
            let c = node.children[k].0;
            let mut new_prefix = String::from_str(prefix);
            push_char(&mut new_prefix, c);
            let ghost rk = results@;
            proof {
                assert(decreases_to!(*node => node.children@[k as int].1));
            }
            self.dfs(&node.children[k].1, new_prefix.as_str(), results);
            proof {
                lemma_collect_sound_step(*node, acc, c, k as int, r0.len() as int, rk, results@);
                lemma_collect_complete_step(*node, acc, c, k as int, r0.len() as int, rk, results@);
                lemma_collect_distinct_step(*node, acc, c, k as int, r0.len() as int, rk, results@);
            }
            k += 1;
        }
        proof {
            lemma_collect_finish(*node, acc, r0, results@);
        }
    }

    /// Prefix enumeration: the returned strings are, each exactly once and
    /// in unspecified order, precisely the stored keys that start with
    /// `prefix`. An empty prefix enumerates every stored key; a prefix
    /// whose character path is absent from the tree yields nothing. A pure
    /// read: the index is unchanged.
    pub fn starts_with(&self, prefix: &str) -> (results: Vec<String>)
        requires
            self.wf(),
        ensures
            forall|i: int|
                0 <= i < results@.len() ==> self.keys().contains((#[trigger] results@[i])@)
                    && prefix@.is_prefix_of(results@[i]@),
            forall|k: Seq<char>|
                #[trigger] self.keys().contains(k) && prefix@.is_prefix_of(k) ==> exists|i: int|
                    0 <= i < results@.len() && (#[trigger] results@[i])@ == k,
            entries_distinct(results@, 0),
            results.deep_view().to_set() == keys_with_prefix(self.keys(), prefix@),
    {
        let chars = str_chars_vec(prefix);
        let mut results: Vec<String> = Vec::new();
        let mut node: &TrieNode = &self.root;
        let mut i: usize = 0;
        proof {
            assert forall|t: Seq<char>|
                #[trigger] node_has(*node, t) == node_has(self.root, prefix@.take(0) + t) by {
                assert(prefix@.take(0) + t =~= t);
            }
        }
        while i < chars.len()
            invariant
                i <= chars@.len(),
                chars@ == prefix@,
                self.wf(),
                node_wf(*node),
                results@.len() == 0,
                forall|t: Seq<char>|
                    #[trigger] node_has(*node, t) == node_has(
                        self.root,
                        prefix@.take(i as int) + t,
                    ),
            decreases chars@.len() - i,
        {
            let c = chars[i];
            match find_child(&node.children, c) {
                Some(j) => {
                    proof {
                        assert forall|t: Seq<char>|
                            #[trigger] node_has(node.children@[j as int].1, t) == node_has(
                                self.root,
                                prefix@.take(i as int + 1) + t,
                            ) by {
                            let s = seq![c] + t;
                            assert(s.len() > 0 && s[0] == c);
                            assert(s.drop_first() =~= t);
                            lemma_step(*node, s, j as int);
                            assert(prefix@.take(i as int) + s =~= prefix@.take(i as int + 1) + t);
                            assert(node_has(self.root, prefix@.take(i as int) + s) == node_has(
                                self.root,
                                prefix@.take(i as int + 1) + t,
                            ));
                        }
                    }
                    node = &node.children[j].1;
                    i += 1;
                },
                None => {
                    proof {
                        assert forall|k: Seq<char>|
                            #[trigger] self.keys().contains(k) && prefix@.is_prefix_of(
                                k,
                            ) implies false by {
                            let t = k.skip(i as int);
                            assert(t.len() > 0);
                            assert(t[0] == k[i as int]);
                            assert(k[i as int] == prefix@[i as int]);
                            lemma_no_edge(*node, t);
                            assert(prefix@.take(i as int) + t =~= k);
                            assert(node_has(self.root, prefix@.take(i as int) + t) == node_has(
                                self.root,
                                k,
                            ));
                        }
                        lemma_result_set(self.keys(), prefix@, results);
                    }
                    return results;
                },
            }
        }
        self.dfs(node, prefix, &mut results);
        proof {
            assert(prefix@.take(i as int) =~= prefix@);
            assert forall|x: int|
                0 <= x < results@.len() implies self.keys().contains((#[trigger] results@[x])@)
                && prefix@.is_prefix_of(results@[x]@) by {
                assert(member_entry(*node, prefix@, results@[x]@));
                let t = choose|t: Seq<char>|
                    node_has(*node, t) && (results@[x])@ == #[trigger] (prefix@ + t);
                assert(node_has(self.root, prefix@.take(i as int) + t));
                assert(prefix@.take(i as int) + t == prefix@ + t);
                if (prefix@ + t).len() == 0 {
                    assert(t =~= Seq::<char>::empty());
                    assert(prefix@.take(i as int) + t =~= Seq::<char>::empty());
                    assert(!node_has(self.root, prefix@.take(i as int) + t));
                }
                assert((prefix@ + t).subrange(0, prefix@.len() as int) =~= prefix@);
            }
            assert forall|k: Seq<char>|
                #[trigger] self.keys().contains(k) && prefix@.is_prefix_of(k) implies exists|
                x: int,
            |
                0 <= x < results@.len() && (#[trigger] results@[x])@ == k by {
                let t = k.skip(prefix@.len() as int);
                assert(prefix@.take(i as int) + t =~= k);
                assert(node_has(self.root, prefix@.take(i as int) + t));
                assert(node_has(*node, t));
                assert(present(prefix@, results@, 0, t));
                let x = choose|x: int|
                    0 <= x < results@.len() && (#[trigger] results@[x])@ == prefix@ + t;
                assert(prefix@ + t =~= k);
                assert(0 <= x < results@.len() && results@[x]@ == k);
            }
            lemma_result_set(self.keys(), prefix@, results);
        }
        results
    }
}

/// Position of the edge labelled `c` in an edge list, if there is one.
fn find_child(children: &Vec<(char, TrieNode)>, c: char) -> (r: Option<usize>)
    ensures
        match r {
            Some(j) => j < children@.len() && children@[j as int].0 == c,
            None => forall|i: int|
                0 <= i < children@.len() ==> (#[trigger] children@[i]).0 != c,
        },
{
    let mut k: usize = 0;
    while k < children.len()
        invariant
            k <= children@.len(),
            forall|i: int| 0 <= i < k ==> (#[trigger] children@[i]).0 != c,
        decreases children@.len() - k,
    {
        if children[k].0 == c {
            return Some(k);
        }
        k += 1;
    }
    None
}

} // verus!
