//! The coder: frequency collection, tree assembly, code assignment,
//! bit-packed encoding and tree-guided decoding.
//!
//! The coder holds the input text, already read into memory line by
//! line; the caller opens the source, reads it and hands the lines
//! over.  One terminator symbol `'\n'` is part of the alphabet and is
//! appended after every line, even the last, so decoding gives
//! the terminators back verbatim.

use vstd::prelude::*;

use crate::bits::bits_of;
use crate::bits::bv_get;
use crate::bits::bv_len;
use crate::bits::bv_new;
use crate::bits::bv_push;
use crate::bits::string_push;
use crate::codes::code_table_spec;
use crate::codes::codes_under;
use crate::codes::decode_from;
use crate::codes::decode_spec;
use crate::codes::encode_syms;
use crate::codes::code_of;
use crate::codes::is_prefix;
use crate::codes::lemma_encode_syms_push;
use crate::codes::lemma_lookup_code_table;
use crate::codes::lemma_prefix_free;
use crate::codes::lemma_round_trip_tree;
use crate::codes::lookup_spec;
use crate::codes::step;
use crate::freq::counts_view;
use crate::freq::freq_spec;
use crate::freq::has_key;
use crate::freq::bump;
use crate::freq::leaves_of;
use crate::freq::lemma_freq_bounds;
use crate::freq::lemma_freq_has_key;
use crate::freq::lemma_freq_sum;
use crate::freq::lemma_freq_unique;
use crate::freq::lemma_leaves;
use crate::freq::sum_vals;
use crate::freq::unique_keys;
use crate::tree::TreeNode;
use crate::tree::all_symbols;
use crate::tree::all_wf;
use crate::tree::build_tree_spec;
use crate::tree::lemma_build_tree;
use crate::tree::lemma_merge_step;
use crate::tree::lemma_min_idx;
use crate::tree::lemma_sum_all_nonneg;
use crate::tree::lemma_sum_remove;
use crate::tree::merge_step;
use crate::tree::merged;
use crate::tree::min_idx;
use crate::tree::sum_weights;

verus! {

/// Why encoding failed.
#[derive(Clone, Copy, Debug, PartialEq, Eq, Structural)]
pub enum EncodeError {
    /// The frequency table was empty when tree assembly started: the
    /// input held not a single symbol.
    EmptyAlphabet,
    /// A symbol met during bit emission had no entry in the code
    /// table.  The two passes share one buffered symbol stream, so
    /// this is proved never to be returned.
    SymbolNotFound,
}

/// Why decoding failed.
#[derive(Clone, Copy, Debug, PartialEq, Eq, Structural)]
pub enum DecodeError {
    /// No tree is held yet: `encode` has not run.
    TreeNotBuilt,
}

/// The symbol stream of an input: each line's characters in order,
/// each line followed by one terminator symbol.
pub open spec fn symbol_stream(lines: Seq<Seq<char>>) -> Seq<char>
    decreases lines.len(),
{
    if lines.len() == 0 {
        Seq::empty()
    } else {
        symbol_stream(lines.drop_last()) + lines.last() + seq!['\n']
    }
}

/// The tree the coder assembles for a stream: one leaf per frequency
/// table entry, merged lowest-weight-first.
pub open spec fn huffman_tree_spec(stream: Seq<char>) -> TreeNode {
    build_tree_spec(leaves_of(freq_spec(stream)))
}

/// The bit sequence the coder emits for a stream.
pub open spec fn encode_stream_spec(stream: Seq<char>) -> Seq<bool> {
    encode_syms(huffman_tree_spec(stream), stream)
}

/// The bit sequence the coder emits for an input.
pub open spec fn encode_lines_spec(lines: Seq<Seq<char>>) -> Seq<bool> {
    encode_stream_spec(symbol_stream(lines))
}

/// The code table a vector of code entries stands for.
pub open spec fn table_view(v: Seq<(char, Vec<bool>)>) -> Seq<(char, Seq<bool>)> {
    v.map_values(|e: (char, Vec<bool>)| (e.0, e.1@))
}

/// The Huffman coder.  `encode` fills the frequency table, the tree
/// and the code table as a side effect, so that `decode` can reuse the
/// tree.
pub struct Encoder {
    lines: Vec<Vec<char>>,
    word_counts: Vec<(char, u32)>,
    embeddings: Vec<(char, Vec<bool>)>,
    root: Option<Box<TreeNode>>,
}

impl Encoder {
    /// The input text held, line by line, each line without its terminator.
    pub closed spec fn lines_view(self) -> Seq<Seq<char>> {
        self.lines.deep_view()
    }

    /// The prefix-code tree held, if `encode` has built one.
    pub closed spec fn tree_view(self) -> Option<TreeNode> {
        match self.root {
            None => None,
            Some(t) => Some(*t),
        }
    }

    /// Takes the input to code, already read from its source: one entry
    /// per line, without its terminator.  Reading the source, and any
    /// failure of that, stays with the caller.
    pub fn open(lines: Vec<Vec<char>>) -> (e: Encoder)
        ensures
            e.lines_view() == lines.deep_view(),
            e.tree_view() is None,
    {
        Encoder { lines, word_counts: Vec::new(), embeddings: Vec::new(), root: None }
    }

    /// Raises the count of `c` by one: the table is kept in
    /// first-appearance order, one entry per distinct symbol.
    fn add_count(word_counts: &mut Vec<(char, u32)>, c: char, p: Ghost<Seq<char>>)
        requires
            counts_view(old(word_counts)@) == freq_spec(p@),
            p@.len() + 1 <= u32::MAX,
        ensures
            counts_view(final(word_counts)@) == freq_spec(p@.push(c)),
    {
        proof {
            lemma_freq_unique(p@);
            lemma_freq_bounds(p@);
            assert(p@.push(c).drop_last() =~= p@);
            assert(p@.push(c).last() == c);
        }
        let ghost tab = freq_spec(p@);
        let mut j: usize = 0;
        while j < word_counts.len()
            invariant
                j <= word_counts@.len(),
                counts_view(word_counts@) == tab,
                tab == freq_spec(p@),
                p@.len() + 1 <= u32::MAX,
                unique_keys(tab),
                forall|i: int| 0 <= i < tab.len() ==> 1 <= (#[trigger] tab[i]).1 <= p@.len(),
                forall|k: int| 0 <= k < j ==> (#[trigger] word_counts@[k]).0 != c,
            decreases word_counts@.len() - j,
        {
            let e = word_counts[j];
            if e.0 == c {
                proof {
                    assert(counts_view(word_counts@)[j as int] == (e.0, e.1 as nat));
                    assert(1 <= e.1 <= p@.len());
                }
                let ghost before = word_counts@;
                word_counts.remove(j);
                word_counts.insert(j, (c, e.1 + 1));
                proof {
                    assert(p@.push(c).drop_last() =~= p@);
                    assert(p@.push(c).last() == c);
                    assert(word_counts@ =~= before.update(j as int, (c, (e.1 + 1) as u32)));
                    assert(has_key(tab, c)) by {
                        assert(tab[j as int].0 == c);
                    }
                    assert(counts_view(word_counts@) =~= bump(tab, c)) by {
                        assert forall|k: int| 0 <= k < tab.len() implies #[trigger] counts_view(
                            word_counts@,
                        )[k] == bump(tab, c)[k] by {
                            if k != j {
                                assert(tab[k].0 != c);
                            }
                        }
                    }
                    assert(freq_spec(p@.push(c)) == bump(tab, c));
                }
                return ;
            }
            j += 1;
        }
        word_counts.push((c, 1));
        proof {
            assert(!has_key(tab, c)) by {
                assert(forall|k: int| 0 <= k < tab.len() ==> (#[trigger] tab[k]).0 != c);
            }
            assert(counts_view(word_counts@) =~= tab.push((c, 1nat)));
            assert(freq_spec(p@.push(c)) == tab.push((c, 1nat)));
        }
    }

    /// The index of the first lowest-weight node of a non-empty list.
    fn min_index(tree: &Vec<TreeNode>) -> (m: usize)
        requires
            tree@.len() >= 1,
        ensures
            m == min_idx(tree@),
            0 <= m < tree@.len(),
    {
        proof {
            lemma_min_idx(tree@);
        }
        let mut m: usize = 0;
        let mut k: usize = 1;
        while k < tree.len()
            invariant
                1 <= k <= tree@.len(),
                m < k,
                m == min_idx(tree@.take(k as int)),
            decreases tree@.len() - k,
        {
            proof {
                lemma_min_idx(tree@.take(k as int));
                assert(tree@.take(k + 1).drop_last() =~= tree@.take(k as int));
                assert(tree@.take(k + 1).last() == tree@[k as int]);
            }
            if tree[k].value < tree[m].value {
                m = k;
            }
            k += 1;
        }
        proof {
            assert(tree@.take(tree@.len() as int) =~= tree@);
        }
        m
    }

    /// Assembles the tree from the frequency table: repeatedly merges
    /// the two lowest-weight nodes until one root remains.  Fails on an
    /// empty table.
    fn assemble_tree(&mut self) -> (r: Result<(), EncodeError>)
        requires
            all_wf(leaves_of(counts_view(old(self).word_counts@))),
            sum_weights(leaves_of(counts_view(old(self).word_counts@))) <= u32::MAX,
        ensures
            final(self).lines == old(self).lines,
            final(self).word_counts == old(self).word_counts,
            final(self).embeddings == old(self).embeddings,
            match r {
                Ok(_) => old(self).word_counts@.len() > 0 && final(self).tree_view() == Some(
                    build_tree_spec(leaves_of(counts_view(old(self).word_counts@))),
                ),
                Err(e) => e == EncodeError::EmptyAlphabet && old(self).word_counts@.len() == 0
                    && final(self).tree_view() == old(self).tree_view(),
            },
    {
        let ghost init = leaves_of(counts_view(self.word_counts@));
        let mut tree: Vec<TreeNode> = Vec::new();
        let mut j: usize = 0;
        while j < self.word_counts.len()
            invariant
                j <= self.word_counts@.len(),
                *self == *old(self),
                init == leaves_of(counts_view(self.word_counts@)),
                tree@.len() == j,
                forall|k: int| 0 <= k < j ==> #[trigger] tree@[k] == init[k],
            decreases self.word_counts@.len() - j,
        {
            let e = self.word_counts[j];
            let node = TreeNode::new(e.1, None, None, Some(e.0));
            tree.push(node);
            j += 1;
        }
        proof {
            assert(tree@ =~= init);
        }
        if tree.len() == 0 {
            return Err(EncodeError::EmptyAlphabet);
        }
        while tree.len() > 1
            invariant
                *self == *old(self),
                tree@.len() >= 1,
                all_wf(tree@),
                all_wf(init),
                sum_weights(tree@) == sum_weights(init),
                sum_weights(init) <= u32::MAX,
                build_tree_spec(tree@) == build_tree_spec(init),
            decreases tree@.len(),
        {
            let ghost prev = tree@;
            let m = Self::min_index(&tree);
            let first_node = tree.remove(m);
            let m2 = Self::min_index(&tree);
            let second_node = tree.remove(m2);
            proof {
                lemma_min_idx(prev);
                lemma_min_idx(prev.remove(m as int));
                lemma_sum_remove(prev, m as int);
                lemma_sum_remove(prev.remove(m as int), m2 as int);
                lemma_sum_all_nonneg(tree@);
                assert(first_node.value + second_node.value <= u32::MAX);
            }
            let combined = first_node.value + second_node.value;
            let root_node = TreeNode::new(
                combined,
                Some(Box::new(first_node)),
                Some(Box::new(second_node)),
                None,
            );
            tree.push(root_node);
            proof {
                assert(root_node == merged(prev[m as int], prev.remove(m as int)[m2 as int]));
                assert(tree@ =~= merge_step(prev));
                lemma_merge_step(prev);
                assert(build_tree_spec(prev) == build_tree_spec(merge_step(prev)));
            }
        }
        proof {
            assert(build_tree_spec(tree@) == tree@[0]);
            assert(tree@.last() == tree@[0]);
        }
        let root_node = tree.pop().unwrap();
        self.root = Some(Box::new(root_node));
        Ok(())
    }

    /// Walks the tree depth first and records, for each leaf, the
    /// descent path as the leaf's code: `false` for a left branch,
    /// `true` for a right one, appended in descent order.
    fn assign_codes(embeddings: &mut Vec<(char, Vec<bool>)>, p: &TreeNode, s: Vec<bool>)
        ensures
            table_view(final(embeddings)@) == table_view(old(embeddings)@) + codes_under(*p, s@),
        decreases *p,
    {
        let ghost pre = table_view(embeddings@);
        match p.character {
            Some(ch) => {
                embeddings.push((ch, s));
                proof {
                    assert(table_view(embeddings@) =~= pre + seq![(ch, s@)]);
                }
            },
            None => {
                match (&p.left, &p.right) {
                    (Some(l), Some(r)) => {
                        let mut sl = s.clone();
                        proof {
                            assert(sl@ =~= s@);
                        }
                        sl.push(false);
                        Self::assign_codes(embeddings, l, sl);
                        let mut sr = s;
                        sr.push(true);
                        Self::assign_codes(embeddings, r, sr);
                        proof {
                            assert(pre + codes_under(*p, s@) =~= (pre + codes_under(
                                **l,
                                s@.push(false),
                            )) + codes_under(**r, s@.push(true)));
                        }
                    },
                    _ => {
                        proof {
                            assert(table_view(embeddings@) =~= pre + codes_under(*p, s@));
                        }
                    },
                }
            },
        }
    }

    /// The first code-table entry for `c`, if any.
    fn get_code<'a>(embeddings: &'a Vec<(char, Vec<bool>)>, c: char) -> (r: Option<&'a Vec<bool>>)
        ensures
            match r {
                Some(v) => lookup_spec(table_view(embeddings@), c) == Some(v@),
                None => lookup_spec(table_view(embeddings@), c) is None,
            },
    {
        let ghost tv = table_view(embeddings@);
        proof {
            assert(tv.skip(0) =~= tv);
        }
        let mut j: usize = 0;
        while j < embeddings.len()
            invariant
                j <= embeddings@.len(),
                tv == table_view(embeddings@),
                lookup_spec(tv, c) == lookup_spec(tv.skip(j as int), c),
            decreases embeddings@.len() - j,
        {
            let e = &embeddings[j];
            proof {
                assert(tv.skip(j as int)[0] == tv[j as int]);
                assert(tv.skip(j as int).drop_first() =~= tv.skip(j + 1));
            }
            if e.0 == c {
                return Some(&e.1);
            }
            j += 1;
        }
        proof {
            assert(tv.skip(tv.len() as int).len() == 0);
        }
        None
    }

    /// Encodes the held input: counts every symbol (each line's
    /// characters plus one terminator per line), assembles the tree,
    /// assigns the codes and emits each symbol's code in input order
    /// into a packed bit sequence.  Fails exactly when the input holds
    /// no symbol at all, that is, no line.
    pub fn encode(&mut self) -> (r: Result<bit_vec::BitVec, EncodeError>)
        requires
            symbol_stream(old(self).lines_view()).len() <= u32::MAX,
        ensures
            final(self).lines_view() == old(self).lines_view(),
            ({
                let stream = symbol_stream(old(self).lines_view());
                match r {
                    Ok(bits) => stream.len() > 0 && final(self).tree_view() == Some(
                        huffman_tree_spec(stream),
                    ) && bits_of(bits) == encode_stream_spec(stream),
                    Err(e) => e == EncodeError::EmptyAlphabet && stream.len() == 0,
                }
            }),
    {
        let ghost gstream = symbol_stream(self.lines_view());
        self.word_counts = Vec::new();
        self.embeddings = Vec::new();
        self.root = None;

        // One buffered symbol stream feeds both passes, so both observe
        // the identical tokenization.
        let mut stream: Vec<char> = Vec::new();
        let mut li: usize = 0;
        while li < self.lines.len()
            invariant
                li <= self.lines@.len(),
                self.lines == old(self).lines,
                self.word_counts@.len() == 0,
                self.embeddings@.len() == 0,
                self.root is None,
                gstream == symbol_stream(self.lines_view()),
                stream@ == symbol_stream(self.lines_view().take(li as int)),
            decreases self.lines@.len() - li,
        {
            let ghost sofar = stream@;
            let line = &self.lines[li];
            let mut ci: usize = 0;
            while ci < line.len()
                invariant
                    ci <= line@.len(),
                    line == &self.lines@[li as int],
                    li < self.lines@.len(),
                    stream@ == sofar + self.lines_view()[li as int].take(ci as int),
                decreases line@.len() - ci,
            {
                stream.push(line[ci]);
                ci += 1;
                proof {
                    assert(self.lines_view()[li as int] == self.lines@[li as int]@);
                    assert(self.lines_view()[li as int].take(ci as int) =~= self.lines_view()[li as int].take(ci - 1).push(line@[ci - 1]));
                    assert(stream@ =~= sofar + self.lines_view()[li as int].take(ci as int));
                }
            }
            stream.push('\n');
            li += 1;
            proof {
                let lv = self.lines_view();
                assert(lv[li - 1].take(line@.len() as int) =~= lv[li - 1]);
                assert(lv.take(li as int).drop_last() =~= lv.take(li - 1));
                assert(lv.take(li as int).last() == lv[li - 1]);
                assert(stream@ =~= (sofar + lv[li - 1]).push('\n'));
                assert(symbol_stream(lv.take(li as int)) =~= (symbol_stream(lv.take(li - 1)) + lv[
                    li - 1
                ]) + seq!['\n']);
                assert(stream@ =~= symbol_stream(lv.take(li as int)));
            }
        }
        proof {
            assert(self.lines_view().take(self.lines_view().len() as int) =~= self.lines_view());
            assert(stream@ == gstream);
        }

        // First pass: the frequency table.
        let mut i: usize = 0;
        while i < stream.len()
            invariant
                i <= stream@.len(),
                stream@ == gstream,
                gstream.len() <= u32::MAX,
                self.lines == old(self).lines,
                self.embeddings@.len() == 0,
                counts_view(self.word_counts@) == freq_spec(stream@.take(i as int)),
            decreases stream@.len() - i,
        {
            proof {
                assert(stream@.take(i + 1) =~= stream@.take(i as int).push(stream@[i as int]));
            }
            Self::add_count(&mut self.word_counts, stream[i], Ghost(stream@.take(i as int)));
            i += 1;
        }
        proof {
            assert(stream@.take(stream@.len() as int) =~= stream@);
        }

        // Tree assembly.
        proof {
            lemma_freq_bounds(gstream);
            lemma_freq_sum(gstream);
            lemma_leaves(freq_spec(gstream));
        }
        match self.assemble_tree() {
            Err(e) => {
                proof {
                    assert(freq_spec(gstream).len() == 0);
                    assert(sum_vals(freq_spec(gstream)) == 0);
                }
                return Err(e);
            },
            Ok(_) => {},
        }
        let ghost t = huffman_tree_spec(gstream);
        proof {
            lemma_build_tree(leaves_of(freq_spec(gstream)));
            assert(t.wf());
            assert forall|k: int| 0 <= k < gstream.len() implies t.symbols().contains(
                #[trigger] gstream[k],
            ) by {
                lemma_freq_has_key(gstream, gstream[k]);
                assert(gstream.contains(gstream[k]));
                assert(has_key(freq_spec(gstream), gstream[k]));
                assert(all_symbols(leaves_of(freq_spec(gstream))).contains(gstream[k]));
            }
        }

        // Code assignment: the descent paths; a root that is itself a
        // leaf gets the one-bit code `false` so that its output stays
        // decodable.
        let empty_code: Vec<bool> = Vec::new();
        match &self.root {
            None => {
                proof {
                    assert(false);
                }
                return Err(EncodeError::EmptyAlphabet);
            },
            Some(rt) => {
                if rt.character.is_some() {
                    let ch = rt.character.unwrap();
                    let mut one: Vec<bool> = Vec::new();
                    one.push(false);
                    self.embeddings.push((ch, one));
                    proof {
                        assert(table_view(self.embeddings@) =~= code_table_spec(t));
                    }
                } else {
                    Self::assign_codes(&mut self.embeddings, rt, empty_code);
                    proof {
                        assert(Seq::<(char, Seq<bool>)>::empty() + codes_under(t, Seq::empty())
                            =~= codes_under(t, Seq::empty()));
                        assert(table_view(self.embeddings@) == code_table_spec(t));
                    }
                }
            },
        }

        // Second pass: emit each symbol's code in input order.
        let mut emitted: Vec<bool> = Vec::new();
        let mut i2: usize = 0;
        while i2 < stream.len()
            invariant
                i2 <= stream@.len(),
                stream@ == gstream,
                self.lines == old(self).lines,
                self.tree_view() == Some(t),
                t.wf(),
                forall|k: int| 0 <= k < gstream.len() ==> t.symbols().contains(
                    #[trigger] gstream[k],
                ),
                table_view(self.embeddings@) == code_table_spec(t),
                emitted@ == encode_syms(t, stream@.take(i2 as int)),
            decreases stream@.len() - i2,
        {
            let c = stream[i2];
            proof {
                lemma_lookup_code_table(t, c);
            }
            let code = match Self::get_code(&self.embeddings, c) {
                Some(v) => v,
                None => {
                    proof {
                        assert(false);
                    }
                    return Err(EncodeError::SymbolNotFound);
                },
            };
            proof {
                assert(code@ == code_of(t, c));
                lemma_encode_syms_push(t, stream@.take(i2 as int), c);
                assert(stream@.take(i2 + 1) =~= stream@.take(i2 as int).push(c));
            }
            let ghost before = emitted@;
            emitted.extend_from_slice(code.as_slice());
            i2 += 1;
            proof {
                assert(emitted@ =~= before + code@);
            }
        }
        proof {
            assert(stream@.take(stream@.len() as int) =~= stream@);
            assert(emitted@ == encode_stream_spec(gstream));
        }

        // Pack the emitted bits.
        let mut encoded = bv_new();
        let mut i3: usize = 0;
        while i3 < emitted.len()
            invariant
                i3 <= emitted@.len(),
                self.lines == old(self).lines,
                self.tree_view() == Some(t),
                emitted@ == encode_stream_spec(gstream),
                bits_of(encoded) == emitted@.take(i3 as int),
            decreases emitted@.len() - i3,
        {
            bv_push(&mut encoded, emitted[i3]);
            i3 += 1;
            proof {
                assert(emitted@.take(i3 as int) =~= emitted@.take(i3 - 1).push(emitted@[i3 - 1]));
            }
        }
        proof {
            assert(emitted@.take(emitted@.len() as int) =~= emitted@);
            assert(gstream.len() > 0) by {
                assert(sum_vals(freq_spec(gstream)) == gstream.len());
            }
        }
        Ok(encoded)
    }

    /// Decodes a bit sequence against the held tree: each `false` bit
    /// descends left, each `true` bit right; reaching a leaf emits its
    /// symbol and resets the walk to the root.  Terminator symbols are
    /// emitted verbatim.  Trailing bits that end in the middle of a
    /// path are dropped silently.  Fails exactly when no tree is held,
    /// that is, `encode` has not run yet.
    pub fn decode(&self, input: bit_vec::BitVec) -> (r: Result<String, DecodeError>)
        ensures
            match self.tree_view() {
                None => r == Err::<String, DecodeError>(DecodeError::TreeNotBuilt),
                Some(t) => r is Ok && r.unwrap()@ == decode_spec(t, bits_of(input)),
            },
    {
        let root: &TreeNode = match &self.root {
            None => {
                return Err(DecodeError::TreeNotBuilt);
            },
            Some(rt) => &**rt,
        };
        let ghost t = *root;
        let ghost bits = bits_of(input);
        let mut output = String::new();
        let mut nodeptr: &TreeNode = root;
        let n = bv_len(&input);
        proof {
            assert(bits.skip(0) =~= bits);
            assert(Seq::<char>::empty() + decode_from(t, t, bits) =~= decode_from(t, t, bits));
        }
        let mut i: usize = 0;
        while i < n
            invariant
                i <= n,
                n == bits.len(),
                bits == bits_of(input),
                t == self.tree_view().unwrap(),
                self.tree_view() is Some,
                *root == t,
                output@ + decode_from(t, *nodeptr, bits.skip(i as int)) == decode_spec(t, bits),
            decreases n - i,
        {
            let b = match bv_get(&input, i) {
                Some(b) => b,
                None => {
                    proof {
                        assert(false);
                    }
                    false
                },
            };
            let ghost at = *nodeptr;
            proof {
                assert(bits.skip(i as int)[0] == bits[i as int]);
                assert(bits.skip(i as int).drop_first() =~= bits.skip(i + 1));
            }
            if !b {
                match &nodeptr.left {
                    Some(l) => {
                        nodeptr = &**l;
                    },
                    None => {},
                }
            } else {
                match &nodeptr.right {
                    Some(rn) => {
                        nodeptr = &**rn;
                    },
                    None => {},
                }
            }
            proof {
                assert(*nodeptr == step(at, bits[i as int]));
                assert(bits.skip(i as int).len() > 0);
                assert(decode_from(t, at, bits.skip(i as int)) == (match step(
                    at,
                    bits[i as int],
                ).character {
                    Some(cch) => seq![cch] + decode_from(t, t, bits.skip(i + 1)),
                    None => decode_from(t, step(at, bits[i as int]), bits.skip(i + 1)),
                }));
            }
            match nodeptr.character {
                Some(value) => {
                    let ghost before = output@;
                    string_push(&mut output, value);
                    nodeptr = root;
                    proof {
                        assert(output@ + decode_from(t, t, bits.skip(i + 1)) =~= before + (seq![
                            value
                        ] + decode_from(t, t, bits.skip(i + 1))));
                    }
                },
                None => {},
            }
            i += 1;
        }
        proof {
            assert(bits.skip(n as int).len() == 0);
            assert(output@ + Seq::<char>::empty() =~= output@);
        }
        Ok(output)
    }
}

/// Round trip: for every non-empty input whose stream fits the counts,
/// decoding the encoded bit sequence against the assembled tree yields
/// the symbol stream back, terminator symbols and all.
pub proof fn lemma_round_trip(lines: Seq<Seq<char>>)
    requires
        lines.len() > 0,
        symbol_stream(lines).len() <= u32::MAX,
    ensures
        decode_spec(huffman_tree_spec(symbol_stream(lines)), encode_lines_spec(lines))
            == symbol_stream(lines),
{
    let stream = symbol_stream(lines);
    lemma_stream_tree_props(stream);
    lemma_round_trip_tree(huffman_tree_spec(stream), stream);
}

/// Prefix-freeness: two distinct symbols of the stream never get codes
/// of which one is a prefix of the other.
pub proof fn lemma_codes_prefix_free(stream: Seq<char>, a: char, b: char)
    requires
        stream.contains(a),
        stream.contains(b),
        a != b,
        stream.len() <= u32::MAX,
    ensures
        !is_prefix(
            code_of(huffman_tree_spec(stream), a),
            code_of(huffman_tree_spec(stream), b),
        ),
{
    lemma_stream_tree_props(stream);
    lemma_prefix_free(huffman_tree_spec(stream), a, b);
}

/// Weight invariant: the assembled tree is well-formed — every
/// internal node weighs the sum of its children — and the root weighs
/// the whole stream, the total of all symbol counts.
pub proof fn lemma_weight_invariant(stream: Seq<char>)
    requires
        stream.len() > 0,
        stream.len() <= u32::MAX,
    ensures
        huffman_tree_spec(stream).wf(),
        huffman_tree_spec(stream).value == stream.len(),
{
    lemma_stream_tree_props(stream);
}

/// Determinism: the emitted bit sequence is a function of the input
/// alone, so encoding the same input twice yields identical bits.
pub proof fn lemma_encode_deterministic(lines: Seq<Seq<char>>, b1: Seq<bool>, b2: Seq<bool>)
    requires
        b1 == encode_lines_spec(lines),
        b2 == encode_lines_spec(lines),
    ensures
        b1 == b2,
{
}

/// The assembled tree of a non-empty stream is well-formed, weighs the
/// stream's length, and its leaves carry every symbol of the stream.
proof fn lemma_stream_tree_props(stream: Seq<char>)
    requires
        stream.len() > 0,
        stream.len() <= u32::MAX,
    ensures
        huffman_tree_spec(stream).wf(),
        huffman_tree_spec(stream).value == stream.len(),
        forall|i: int| 0 <= i < stream.len() ==> huffman_tree_spec(stream).symbols().contains(
            #[trigger] stream[i],
        ),
{
    let tab = freq_spec(stream);
    lemma_freq_bounds(stream);
    lemma_freq_sum(stream);
    lemma_leaves(tab);
    assert(tab.len() > 0) by {
        assert(sum_vals(freq_spec(stream)) == stream.len());
    }
    lemma_build_tree(leaves_of(tab));
    assert forall|i: int| 0 <= i < stream.len() implies huffman_tree_spec(
        stream,
    ).symbols().contains(#[trigger] stream[i]) by {
        lemma_freq_has_key(stream, stream[i]);
        assert(stream.contains(stream[i]));
        assert(all_symbols(leaves_of(tab)).contains(stream[i]));
    }
}

} // verus!
