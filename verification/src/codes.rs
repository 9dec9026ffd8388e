//! Code assignment and the decode walk.
//!
//! The code of a symbol is the path from the root to its leaf, `false`
//! for a left branch and `true` for a right one.  The degenerate tree
//! that is a single leaf assigns the one-bit code `false` ("0") to its
//! symbol by convention, so that its bit sequence stays decodable.
//! Decoding walks the tree bit by bit, emits a symbol at each leaf and
//! resets to the root; trailing bits that end in the middle of a path
//! are dropped silently.

use vstd::prelude::*;

use crate::tree::TreeNode;

verus! {

/// The code table entries of every leaf beneath `t`, in depth-first
/// left-to-right order, each code starting with `prefix`.
pub open spec fn codes_under(t: TreeNode, prefix: Seq<bool>) -> Seq<(char, Seq<bool>)>
    decreases t,
{
    match t.character {
        Some(c) => seq![(c, prefix)],
        None => match (t.left, t.right) {
            (Some(l), Some(r)) => codes_under(*l, prefix.push(false)) + codes_under(
                *r,
                prefix.push(true),
            ),
            _ => Seq::empty(),
        },
    }
}

/// The path from `t` down to the leftmost leaf that carries `c`.
pub open spec fn code_in(t: TreeNode, c: char) -> Seq<bool>
    decreases t,
{
    match t.character {
        Some(_) => Seq::empty(),
        None => match (t.left, t.right) {
            (Some(l), Some(r)) => if l.symbols().contains(c) {
                seq![false] + code_in(*l, c)
            } else {
                seq![true] + code_in(*r, c)
            },
            _ => Seq::empty(),
        },
    }
}

/// The code assigned to symbol `c` under the root `t`: its root-to-leaf
/// path, except that a root that is itself a leaf assigns the one-bit
/// code `false`.
pub open spec fn code_of(t: TreeNode, c: char) -> Seq<bool> {
    if t.is_leaf() {
        seq![false]
    } else {
        code_in(t, c)
    }
}

/// The first entry of the table that carries key `c`, if any.
pub open spec fn lookup_spec(tab: Seq<(char, Seq<bool>)>, c: char) -> Option<Seq<bool>>
    decreases tab.len(),
{
    if tab.len() == 0 {
        None
    } else if tab[0].0 == c {
        Some(tab[0].1)
    } else {
        lookup_spec(tab.drop_first(), c)
    }
}

/// The concatenation of the codes of a symbol sequence.
pub open spec fn encode_syms(t: TreeNode, stream: Seq<char>) -> Seq<bool>
    decreases stream.len(),
{
    if stream.len() == 0 {
        Seq::empty()
    } else {
        code_of(t, stream[0]) + encode_syms(t, stream.drop_first())
    }
}

/// One step of the decode walk: descend to the child the bit names,
/// staying in place where that child is missing (as at a lone leaf).
pub open spec fn step(cur: TreeNode, b: bool) -> TreeNode {
    if b {
        match cur.right {
            Some(r) => *r,
            None => cur,
        }
    } else {
        match cur.left {
            Some(l) => *l,
            None => cur,
        }
    }
}

/// The decode walk from `cur`: each bit descends once; reaching a leaf
/// emits its symbol and resets the walk to `root`.
pub open spec fn decode_from(root: TreeNode, cur: TreeNode, bits: Seq<bool>) -> Seq<char>
    decreases bits.len(),
{
    if bits.len() == 0 {
        Seq::empty()
    } else {
        let nxt = step(cur, bits[0]);
        match nxt.character {
            Some(c) => seq![c] + decode_from(root, root, bits.drop_first()),
            None => decode_from(root, nxt, bits.drop_first()),
        }
    }
}

/// What decoding a whole bit sequence against the tree `root` yields.
pub open spec fn decode_spec(root: TreeNode, bits: Seq<bool>) -> Seq<char> {
    decode_from(root, root, bits)
}

/// The full code table of the tree `t`: one entry per leaf, in
/// depth-first order; the lone-leaf tree gets the one-bit code `false`.
pub open spec fn code_table_spec(t: TreeNode) -> Seq<(char, Seq<bool>)> {
    if t.is_leaf() {
        seq![(t.character.unwrap(), seq![false])]
    } else {
        codes_under(t, Seq::empty())
    }
}

/// Looking a symbol of the alphabet up in the tree's code table yields
/// exactly its assigned code.
pub proof fn lemma_lookup_code_table(t: TreeNode, c: char)
    requires
        t.wf(),
        t.symbols().contains(c),
    ensures
        lookup_spec(code_table_spec(t), c) == Some(code_of(t, c)),
{
    if t.is_leaf() {
        assert(t.character.unwrap() == c);
    } else {
        lemma_lookup_codes_under(t, Seq::empty(), c);
        assert(Seq::<bool>::empty() + code_in(t, c) =~= code_in(t, c));
    }
}

/// Encoding a concatenation concatenates the encodings.
pub proof fn lemma_encode_syms_concat(t: TreeNode, s1: Seq<char>, s2: Seq<char>)
    ensures
        encode_syms(t, s1 + s2) == encode_syms(t, s1) + encode_syms(t, s2),
    decreases s1.len(),
{
    if s1.len() == 0 {
        assert(s1 + s2 =~= s2);
        assert(Seq::<bool>::empty() + encode_syms(t, s2) =~= encode_syms(t, s2));
    } else {
        assert((s1 + s2)[0] == s1[0]);
        assert((s1 + s2).drop_first() =~= s1.drop_first() + s2);
        lemma_encode_syms_concat(t, s1.drop_first(), s2);
        assert(code_of(t, s1[0]) + (encode_syms(t, s1.drop_first()) + encode_syms(t, s2)) =~= (
        code_of(t, s1[0]) + encode_syms(t, s1.drop_first())) + encode_syms(t, s2));
    }
}

/// Encoding one more symbol appends its code.
pub proof fn lemma_encode_syms_push(t: TreeNode, s: Seq<char>, c: char)
    ensures
        encode_syms(t, s.push(c)) == encode_syms(t, s) + code_of(t, c),
{
    assert(s.push(c) =~= s + seq![c]);
    lemma_encode_syms_concat(t, s, seq![c]);
    assert(encode_syms(t, seq![c]) =~= code_of(t, c)) by {
        assert(seq![c].drop_first().len() == 0);
        assert(encode_syms(t, seq![c].drop_first()) == Seq::<bool>::empty());
        assert(code_of(t, c) + Seq::<bool>::empty() =~= code_of(t, c));
    }
}

/// `a` is a (not necessarily proper) prefix of `b`.
pub open spec fn is_prefix(a: Seq<bool>, b: Seq<bool>) -> bool {
    a.len() <= b.len() && a == b.take(a.len() as int)
}

/// Looking a key up in a concatenation of tables searches the left
/// table first.
pub proof fn lemma_lookup_concat(a: Seq<(char, Seq<bool>)>, b: Seq<(char, Seq<bool>)>, c: char)
    ensures
        lookup_spec(a + b, c) == if lookup_spec(a, c) is Some {
            lookup_spec(a, c)
        } else {
            lookup_spec(b, c)
        },
    decreases a.len(),
{
    if a.len() == 0 {
        assert(a + b =~= b);
    } else {
        assert((a + b).drop_first() =~= a.drop_first() + b);
        assert((a + b)[0] == a[0]);
        lemma_lookup_concat(a.drop_first(), b, c);
    }
}

/// In the table written for a well-formed tree, the first entry for a
/// symbol beneath that tree holds exactly the path to its leftmost
/// leaf; a symbol not beneath the tree has no entry.
pub proof fn lemma_lookup_codes_under(t: TreeNode, prefix: Seq<bool>, c: char)
    requires
        t.wf(),
    ensures
        t.symbols().contains(c) ==> lookup_spec(codes_under(t, prefix), c) == Some(
            prefix + code_in(t, c),
        ),
        !t.symbols().contains(c) ==> lookup_spec(codes_under(t, prefix), c) is None,
    decreases t,
{
    match t.character {
        Some(d) => {
            let tab = codes_under(t, prefix);
            assert(tab == seq![(d, prefix)]);
            if d == c {
                assert(prefix + code_in(t, c) =~= prefix);
            } else {
                assert(!t.symbols().contains(c));
                assert(tab.drop_first().len() == 0);
                assert(lookup_spec(tab.drop_first(), c) is None);
                assert(lookup_spec(tab, c) is None);
            }
        },
        None => {
            let l = *t.left.unwrap();
            let r = *t.right.unwrap();
            lemma_lookup_codes_under(l, prefix.push(false), c);
            lemma_lookup_codes_under(r, prefix.push(true), c);
            lemma_lookup_concat(
                codes_under(l, prefix.push(false)),
                codes_under(r, prefix.push(true)),
                c,
            );
            if l.symbols().contains(c) {
                assert(prefix.push(false) + code_in(l, c) =~= prefix + (seq![false] + code_in(
                    l,
                    c,
                )));
            } else if r.symbols().contains(c) {
                assert(prefix.push(true) + code_in(r, c) =~= prefix + (seq![true] + code_in(
                    r,
                    c,
                )));
            }
        },
    }
}

/// Decoding the path of a symbol beneath an internal node emits exactly
/// that symbol before continuing from the root.
proof fn lemma_decode_one(root: TreeNode, t: TreeNode, c: char, rest: Seq<bool>)
    requires
        t.wf(),
        !t.is_leaf(),
        t.symbols().contains(c),
    ensures
        decode_from(root, t, code_in(t, c) + rest) == seq![c] + decode_from(root, root, rest),
    decreases t,
{
    let l = *t.left.unwrap();
    let r = *t.right.unwrap();
    let bits = code_in(t, c) + rest;
    if l.symbols().contains(c) {
        assert(bits[0] == false);
        assert(step(t, false) == l);
        assert(bits.drop_first() =~= code_in(l, c) + rest);
        if l.is_leaf() {
            assert(l.character == Some(c));
            assert(code_in(l, c) + rest =~= rest);
        } else {
            lemma_decode_one(root, l, c, rest);
        }
    } else {
        assert(r.symbols().contains(c));
        assert(bits[0] == true);
        assert(step(t, true) == r);
        assert(bits.drop_first() =~= code_in(r, c) + rest);
        if r.is_leaf() {
            assert(r.character == Some(c));
            assert(code_in(r, c) + rest =~= rest);
        } else {
            lemma_decode_one(root, r, c, rest);
        }
    }
}

/// Round trip: decoding the concatenated codes of any symbol sequence
/// drawn from the tree's alphabet yields that sequence back.
pub proof fn lemma_round_trip_tree(root: TreeNode, stream: Seq<char>)
    requires
        root.wf(),
        forall|i: int| 0 <= i < stream.len() ==> root.symbols().contains(#[trigger] stream[i]),
    ensures
        decode_spec(root, encode_syms(root, stream)) == stream,
    decreases stream.len(),
{
    if stream.len() > 0 {
        let c = stream[0];
        let rest = stream.drop_first();
        let restbits = encode_syms(root, rest);
        assert(forall|i: int| 0 <= i < rest.len() ==> rest[i] == stream[i + 1]);
        lemma_round_trip_tree(root, rest);
        if root.is_leaf() {
            let bits = seq![false] + restbits;
            assert(bits[0] == false);
            assert(step(root, false) == root);
            assert(root.character == Some(c));
            assert(bits.drop_first() =~= restbits);
            assert(decode_from(root, root, bits) == seq![c] + decode_from(root, root, restbits));
        } else {
            lemma_decode_one(root, root, c, restbits);
        }
        assert(seq![c] + rest =~= stream);
    }
}

/// Prefix-freeness: the codes of two distinct symbols of a well-formed
/// tree's alphabet are never prefixes of one another.
pub proof fn lemma_prefix_free(t: TreeNode, a: char, b: char)
    requires
        t.wf(),
        t.symbols().contains(a),
        t.symbols().contains(b),
        a != b,
    ensures
        !is_prefix(code_of(t, a), code_of(t, b)),
    decreases t,
{
    if t.is_leaf() {
        assert(a == b);
    } else {
        let l = *t.left.unwrap();
        let r = *t.right.unwrap();
        let ca = code_in(t, a);
        let cb = code_in(t, b);
        if l.symbols().contains(a) == l.symbols().contains(b) {
            let sub = if l.symbols().contains(a) {
                l
            } else {
                r
            };
            assert(sub.symbols().contains(a) && sub.symbols().contains(b));
            if sub.is_leaf() {
                assert(a == b);
            } else {
                lemma_prefix_free(sub, a, b);
                let h = if l.symbols().contains(a) {
                    false
                } else {
                    true
                };
                assert(ca == seq![h] + code_in(sub, a));
                assert(cb == seq![h] + code_in(sub, b));
                lemma_prefix_cons(h, code_in(sub, a), code_in(sub, b));
            }
        } else {
            assert(ca[0] != cb[0]);
            if is_prefix(ca, cb) {
                assert(ca.len() >= 1);
                assert(cb.take(ca.len() as int)[0] == cb[0]);
            }
        }
    }
}

/// Prepending the same bit to two codes keeps the prefix relation.
proof fn lemma_prefix_cons(h: bool, u: Seq<bool>, v: Seq<bool>)
    ensures
        is_prefix(seq![h] + u, seq![h] + v) == is_prefix(u, v),
{
    let hu = seq![h] + u;
    let hv = seq![h] + v;
    if is_prefix(u, v) {
        assert forall|j: int| 0 <= j < hu.len() implies #[trigger] hv.take(hu.len() as int)[j]
            == hu[j] by {
            if j >= 1 {
                assert(hv[j] == v[j - 1]);
                assert(hu[j] == u[j - 1]);
                assert(v.take(u.len() as int)[j - 1] == v[j - 1]);
            }
        }
        assert(hv.take(hu.len() as int) =~= hu);
    }
    if is_prefix(hu, hv) {
        assert forall|i: int| 0 <= i < u.len() implies #[trigger] v.take(u.len() as int)[i]
            == u[i] by {
            assert(hv.take(hu.len() as int)[i + 1] == hu[i + 1]);
            assert(hv[i + 1] == v[i]);
            assert(hu[i + 1] == u[i]);
        }
        assert(v.take(u.len() as int) =~= u);
    }
}

} // verus!
