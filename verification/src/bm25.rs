//! The inverted index: per-term frequency tables, per-document metadata,
//! compressed postings, and the integer side of BM25 search.
//!
//! The index models its frequency table as a map from term to a map from
//! document id to occurrence count. `add_document` and `build` are specified
//! against that model; `score_inputs` hands out the exact integer quantities
//! (term frequency, document frequency, document length, corpus totals) that
//! the BM25 weighting consumes, and `rank_top_k` orders candidates by an
//! order-preserving integer key, so the floating-point weighting itself can
//! stay with the caller.

use vstd::prelude::*;
use vstd::hash_map::StringHashMap;
use crate::tokenizer::{views_of, spec_tokenize, Tokenizer};
use crate::varint::{encode_postings, postings_encoding, sorted_strict};

verus! {

/// Metadata the index keeps per added document.
#[derive(Debug, Clone, Copy, PartialEq, Eq, Structural)]
pub struct DocMeta {
    /// Caller-assigned document identifier.
    pub doc_id: u32,
    /// Token count of the document after tokenizer filtering.
    pub doc_len: u32,
}

/// One document's occurrence count for some term.
#[derive(Debug, Clone, Copy, PartialEq, Eq, Structural)]
pub struct DocFreq {
    /// Document identifier.
    pub doc_id: u32,
    /// How often the term occurs in that document.
    pub freq: u32,
}

/// Aggregate statistics of the index.
#[derive(Debug, Clone, Copy, PartialEq, Eq, Structural)]
pub struct IndexStats {
    /// Number of documents added.
    pub num_docs: usize,
    /// Number of terms with compressed postings built.
    pub num_terms: usize,
    /// Total token count over all documents; the average document length is
    /// this total divided by `num_docs`.
    pub total_doc_len: u64,
}

/// A term count local to one document, used while ingesting it.
struct TermCount {
    term: String,
    count: u32,
}

/// `n` clamped into the 32-bit range.
pub open spec fn sat32(n: nat) -> u32 {
    if n > u32::MAX as nat {
        u32::MAX
    } else {
        n as u32
    }
}

/// Saturating 64-bit addition.
pub open spec fn sat_add64(a: u64, b: u64) -> u64 {
    if a as nat + b as nat > u64::MAX as nat {
        u64::MAX
    } else {
        (a as nat + b as nat) as u64
    }
}

/// The total token count a metadata list records.
pub open spec fn len_sum(metas: Seq<DocMeta>) -> nat
    decreases metas.len(),
{
    if metas.len() == 0 {
        0
    } else {
        len_sum(metas.drop_last()) + metas.last().doc_len as nat
    }
}

/// How often `t` occurs in a token list.
pub open spec fn count_occ(toks: Seq<Seq<char>>, t: Seq<char>) -> nat
    decreases toks.len(),
{
    if toks.len() == 0 {
        0
    } else {
        count_occ(toks.drop_last(), t) + if toks.last() == t {
            1nat
        } else {
            0nat
        }
    }
}

/// The document-to-frequency map a frequency list denotes.
pub open spec fn docs_map(docs: Seq<DocFreq>) -> Map<u32, u32>
    decreases docs.len(),
{
    if docs.len() == 0 {
        Map::empty()
    } else {
        docs_map(docs.drop_last()).insert(docs.last().doc_id, docs.last().freq)
    }
}

/// A frequency list with no repeated document id.
pub open spec fn wf_docs(docs: Seq<DocFreq>) -> bool {
    forall|i: int, j: int| 0 <= i < j < docs.len() ==> docs[i].doc_id != docs[j].doc_id
}

/// The term-to-postings model a raw term table denotes.
pub open spec fn index_model(m: Map<Seq<char>, Vec<DocFreq>>) -> Map<Seq<char>, Map<u32, u32>> {
    Map::new(|t: Seq<char>| m.contains_key(t), |t: Seq<char>| docs_map(m[t]@))
}

/// What adding one document does to the model: every term occurring in the
/// token list has its entry for `doc_id` written (overwriting any prior entry
/// for that id, not merging with it); all other terms are untouched.
pub open spec fn spec_add_doc(
    m: Map<Seq<char>, Map<u32, u32>>,
    doc_id: u32,
    toks: Seq<Seq<char>>,
) -> Map<Seq<char>, Map<u32, u32>> {
    Map::new(
        |t: Seq<char>| m.contains_key(t) || count_occ(toks, t) > 0,
        |t: Seq<char>|
            if count_occ(toks, t) > 0 {
                (if m.contains_key(t) {
                    m[t]
                } else {
                    Map::empty()
                }).insert(doc_id, sat32(count_occ(toks, t)))
            } else {
                m[t]
            },
    )
}

/// Two models agree at term `t`: present in one exactly when present in the
/// other, and then with the same per-document counts.
pub open spec fn same_entry(
    a: Map<Seq<char>, Map<u32, u32>>,
    b: Map<Seq<char>, Map<u32, u32>>,
    t: Seq<char>,
) -> bool {
    &&& a.contains_key(t) <==> b.contains_key(t)
    &&& b.contains_key(t) ==> a[t] == b[t]
}

/// A well-formed frequency list denotes a map whose keys are exactly its
/// document ids, entry by entry, with one key per entry.
pub proof fn lemma_docs_map_props(docs: Seq<DocFreq>)
    requires
        wf_docs(docs),
    ensures
        docs_map(docs).dom().finite(),
        docs_map(docs).dom().len() == docs.len(),
        forall|i: int|
            0 <= i < docs.len() ==> docs_map(docs).contains_key(#[trigger] docs[i].doc_id)
                && docs_map(docs)[docs[i].doc_id] == docs[i].freq,
        forall|d: u32| #[trigger]
            docs_map(docs).contains_key(d) ==> exists|i: int|
                0 <= i < docs.len() && docs[i].doc_id == d,
    decreases docs.len(),
{
    if docs.len() == 0 {
        assert(docs_map(docs).dom() =~= Set::<u32>::empty());
    } else {
        let rest = docs.drop_last();
        assert(wf_docs(rest));
        lemma_docs_map_props(rest);
        let e = docs.last();
        assert(forall|i: int| 0 <= i < rest.len() ==> rest[i] == docs[i]);
        assert(!docs_map(rest).contains_key(e.doc_id)) by {
            if docs_map(rest).contains_key(e.doc_id) {
                let i = choose|i: int| 0 <= i < rest.len() && rest[i].doc_id == e.doc_id;
                assert(docs[i].doc_id == docs[docs.len() - 1].doc_id);
            }
        }
        assert(docs_map(docs).dom() =~= docs_map(rest).dom().insert(e.doc_id));
        assert forall|i: int|
            0 <= i < docs.len() implies docs_map(docs).contains_key(#[trigger] docs[i].doc_id)
            && docs_map(docs)[docs[i].doc_id] == docs[i].freq by {
            if i < docs.len() - 1 {
                assert(docs[i].doc_id != e.doc_id);
            }
        }
    }
}

/// Overwriting one entry of a well-formed frequency list updates just that
/// key of the denoted map.
proof fn lemma_docs_map_update(docs: Seq<DocFreq>, j: int, e: DocFreq)
    requires
        wf_docs(docs),
        0 <= j < docs.len(),
        docs[j].doc_id == e.doc_id,
    ensures
        docs_map(docs.update(j, e)) == docs_map(docs).insert(e.doc_id, e.freq),
    decreases docs.len(),
{
    let up = docs.update(j, e);
    if j == docs.len() - 1 {
        assert(up.drop_last() =~= docs.drop_last());
        assert(up.last() == e);
        assert(docs_map(up) == docs_map(docs.drop_last()).insert(e.doc_id, e.freq));
        assert(docs_map(docs.drop_last()).insert(docs.last().doc_id, docs.last().freq).insert(
            e.doc_id,
            e.freq,
        ) =~= docs_map(docs.drop_last()).insert(e.doc_id, e.freq));
    } else {
        let rest = docs.drop_last();
        assert(wf_docs(rest));
        assert(forall|i: int| 0 <= i < rest.len() ==> rest[i] == docs[i]);
        lemma_docs_map_update(rest, j, e);
        assert(up.drop_last() =~= rest.update(j, e));
        assert(up.last() == docs.last());
        assert(docs[j].doc_id != docs.last().doc_id);
        assert(docs_map(up) == docs_map(rest).insert(e.doc_id, e.freq).insert(
            docs.last().doc_id,
            docs.last().freq,
        ));
        assert(docs_map(rest).insert(e.doc_id, e.freq).insert(
            docs.last().doc_id,
            docs.last().freq,
        ) =~= docs_map(rest).insert(docs.last().doc_id, docs.last().freq).insert(
            e.doc_id,
            e.freq,
        ));
    }
}

/// The inverted index. The raw term table maps each term to the list of
/// documents containing it with their occurrence counts; `doc_metas` records
/// one entry per `add_document` call in call order; `postings` holds the
/// delta-varint buffers that the latest `build` produced (stale once another
/// document is added, until `build` runs again).
pub struct BM25Index {
    /// Tokenizer used for documents and queries.
    pub tokenizer: Tokenizer,
    /// Raw frequency table: term to per-document occurrence counts.
    pub term_freqs: StringHashMap<Vec<DocFreq>>,
    /// The terms of `term_freqs`, for iteration.
    pub terms: Vec<String>,
    /// Compressed postings from the latest `build`.
    pub postings: StringHashMap<Vec<u8>>,
    /// Per-document metadata, in insertion order.
    pub doc_metas: Vec<DocMeta>,
    /// Token count over all documents, saturating at the 64-bit range.
    pub total_doc_len: u64,
}

impl BM25Index {
    /// The term-to-postings model of the frequency table.
    pub open spec fn model(self) -> Map<Seq<char>, Map<u32, u32>> {
        index_model(self.term_freqs@)
    }

    /// Internal consistency: the term list mirrors the table's keys, no
    /// document repeats inside one term's list, and the running total is the
    /// clamped sum of the recorded document lengths.
    pub open spec fn wf(self) -> bool {
        &&& forall|i: int, j: int|
            0 <= i < j < self.terms@.len() ==> views_of(self.terms@)[i] != views_of(self.terms@)[j]
        &&& forall|t: Seq<char>| #![auto]
            self.term_freqs@.contains_key(t) <==> views_of(self.terms@).contains(t)
        &&& forall|t: Seq<char>| #![auto]
            self.term_freqs@.contains_key(t) ==> wf_docs(self.term_freqs@[t]@)
        &&& self.total_doc_len == (if len_sum(self.doc_metas@) > u64::MAX as nat {
            u64::MAX as nat
        } else {
            len_sum(self.doc_metas@)
        })
    }

    /// Create an empty index with the default tokenizer.
    pub fn new() -> (r: BM25Index)
        ensures
            r.wf(),
            r.model() == Map::<Seq<char>, Map<u32, u32>>::empty(),
            r.doc_metas@.len() == 0,
            r.postings@ == Map::<Seq<char>, Vec<u8>>::empty(),
            r.total_doc_len == 0,
            r.tokenizer.min_length == 2,
    {
        let r = BM25Index {
            tokenizer: Tokenizer::new(2),
            term_freqs: StringHashMap::new(),
            terms: Vec::new(),
            postings: StringHashMap::new(),
            doc_metas: Vec::new(),
            total_doc_len: 0,
        };
        proof {
            assert(index_model(r.term_freqs@) =~= Map::<Seq<char>, Map<u32, u32>>::empty());
        }
        r
    }

    /// Aggregate statistics: documents added, terms with built postings, and
    /// the total token count from which callers derive the average document
    /// length.
    pub fn stats(&self) -> (r: IndexStats)
        ensures
            r.num_docs == self.doc_metas@.len(),
            r.num_terms == self.postings@.len(),
            r.total_doc_len == self.total_doc_len,
    {
        IndexStats {
            num_docs: self.doc_metas.len(),
            num_terms: self.postings.len(),
            total_doc_len: self.total_doc_len,
        }
    }

    /// Add a document: record its metadata and length, and write its per-term
    /// occurrence counts into the frequency table. Re-adding a document id
    /// overwrites its counts term by term rather than merging. Compressed
    /// postings are left as they were (stale until the next `build`).
    #[verifier::rlimit(100)]
    pub fn add_document(&mut self, doc_id: u32, text: &str)
        requires
            old(self).wf(),
        ensures
            final(self).wf(),
            final(self).tokenizer == old(self).tokenizer,
            final(self).postings@ == old(self).postings@,
            final(self).doc_metas@ == old(self).doc_metas@.push(
                DocMeta {
                    doc_id,
                    doc_len: sat32(spec_tokenize(text@, old(self).tokenizer.min_length).len()),
                },
            ),
            final(self).total_doc_len == sat_add64(
                old(self).total_doc_len,
                sat32(spec_tokenize(text@, old(self).tokenizer.min_length).len()) as u64,
            ),
            final(self).model() == spec_add_doc(
                old(self).model(),
                doc_id,
                spec_tokenize(text@, old(self).tokenizer.min_length),
            ),
    {
        let tokens = self.tokenizer.tokenize(text);
        let ghost toks = spec_tokenize(text@, self.tokenizer.min_length);
        // document length, saturated into the u32 range
        let doc_len: u32 = if tokens.len() >= u32::MAX as usize {
            u32::MAX
        } else {
            tokens.len() as u32
        };
        proof {
            assert(views_of(tokens@).len() == tokens@.len());
            assert(doc_len == sat32(toks.len()));
        }
        self.doc_metas.push(DocMeta { doc_id, doc_len });
        let add: u64 = doc_len as u64;
        if self.total_doc_len > u64::MAX - add {
            self.total_doc_len = u64::MAX;
        } else {
            self.total_doc_len = self.total_doc_len + add;
        }
        proof {
            assert(self.doc_metas@.drop_last() =~= old(self).doc_metas@);
            assert(len_sum(self.doc_metas@) == len_sum(old(self).doc_metas@) + doc_len as nat);
        }
        // count this document's term occurrences
        let mut counts: Vec<TermCount> = Vec::new();
        let mut k: usize = 0;
        proof {
            assert(toks.take(0) =~= Seq::<Seq<char>>::empty());
        }
        while k < tokens.len()
            invariant
                k <= tokens@.len(),
                views_of(tokens@) == toks,
                forall|i: int, j: int|
                    0 <= i < j < counts@.len() ==> (#[trigger] counts@[i]).term@ != (
                    #[trigger] counts@[j]).term@,
                forall|i: int|
                    0 <= i < counts@.len() ==> count_occ(
                        toks.take(k as int),
                        (#[trigger] counts@[i]).term@,
                    ) > 0 && counts@[i].count == sat32(
                        count_occ(toks.take(k as int), counts@[i].term@),
                    ),
                forall|t: Seq<char>|
                    #[trigger] count_occ(toks.take(k as int), t) > 0 ==> exists|i: int|
                        0 <= i < counts@.len() && (#[trigger] counts@[i]).term@ == t,
            decreases tokens@.len() - k,
        {
            proof {
                assert(toks[k as int] == views_of(tokens@)[k as int]);
                assert(toks.take(k + 1).drop_last() =~= toks.take(k as int));
                assert(toks.take(k + 1).last() == toks[k as int]);
                assert(forall|t: Seq<char>| #![auto]
                    count_occ(toks.take(k + 1), t) == count_occ(toks.take(k as int), t) + (
                    if toks[k as int] == t {
                        1nat
                    } else {
                        0nat
                    }));
            }
            let mut j: usize = 0;
            let mut found = false;
            while j < counts.len() && !found
                invariant
                    j <= counts@.len(),
                    k < tokens@.len(),
                    views_of(tokens@) == toks,
                    !found ==> forall|i: int|
                        0 <= i < j ==> (#[trigger] counts@[i]).term@ != toks[k as int],
                    found ==> j < counts@.len() && counts@[j as int].term@ == toks[k as int],
                decreases counts@.len() - j + (if found { 0int } else { 1int }),
            {
                if counts[j].term == tokens[k] {
                    found = true;
                } else {
                    j = j + 1;
                }
            }
            let ghost before = counts@;
            if found {
                let c = counts[j].count;
                let nc: u32 = if c == u32::MAX {
                    u32::MAX
                } else {
                    c + 1
                };
                let nt = tokens[k].clone();
                counts.remove(j);
                counts.insert(j, TermCount { term: nt, count: nc });
                proof {
                    assert(counts@[j as int].term@ == toks[k as int]);
                    assert(forall|i: int|
                        0 <= i < before.len() && i != j ==> counts@[i] == #[trigger] before[i]);
                    assert(counts@.len() == before.len());
                    // distinct terms survive the overwrite at j
                    assert(forall|i: int|
                        0 <= i < counts@.len() ==> (#[trigger] counts@[i]).term@ == before[i].term@);
                    // the updated count tracks the new occurrence total
                    assert(nc == sat32(count_occ(toks.take(k + 1), toks[k as int])));
                    assert forall|t: Seq<char>|
                        #[trigger] count_occ(toks.take(k + 1), t) > 0 implies exists|i: int|
                            0 <= i < counts@.len() && (#[trigger] counts@[i]).term@ == t by {
                        if count_occ(toks.take(k as int), t) > 0 {
                            let i = choose|i: int|
                                0 <= i < before.len() && (#[trigger] before[i]).term@ == t;
                            assert(counts@[i].term@ == t);
                        } else {
                            assert(t == toks[k as int]);
                            assert(counts@[j as int].term@ == t);
                        }
                    }
                }
            } else {
                proof {
                    assert(count_occ(toks.take(k as int), toks[k as int]) == 0) by {
                        if count_occ(toks.take(k as int), toks[k as int]) > 0 {
                            let i = choose|i: int|
                                0 <= i < before.len() && (#[trigger] before[i]).term@ == toks[k as int];
                            assert(false);
                        }
                    }
                }
                let nt = tokens[k].clone();
                counts.push(TermCount { term: nt, count: 1 });
                proof {
                    assert(counts@.len() == before.len() + 1);
                    assert(forall|i: int|
                        0 <= i < before.len() ==> counts@[i] == #[trigger] before[i]);
                    assert(counts@[before.len() as int].term@ == toks[k as int]);
                    assert forall|t: Seq<char>|
                        #[trigger] count_occ(toks.take(k + 1), t) > 0 implies exists|i: int|
                            0 <= i < counts@.len() && (#[trigger] counts@[i]).term@ == t by {
                        if count_occ(toks.take(k as int), t) > 0 {
                            let i = choose|i: int|
                                0 <= i < before.len() && (#[trigger] before[i]).term@ == t;
                            assert(counts@[i].term@ == t);
                        } else {
                            assert(t == toks[k as int]);
                            assert(counts@[before.len() as int].term@ == t);
                        }
                    }
                }
            }
            k = k + 1;
        }
        proof {
            assert(toks.take(k as int) =~= toks);
            assert(forall|t: Seq<char>| #![auto] count_occ(toks.take(k as int), t) == count_occ(toks, t));
        }
        // write the counts into the frequency table
        let ghost m0 = old(self).model();
        let ghost tgt = spec_add_doc(m0, doc_id, toks);
        let ghost cterms = counts@.map_values(|c: TermCount| c.term@);
        let mut p: usize = 0;
        proof {
            assert(cterms.take(0) =~= Seq::<Seq<char>>::empty());
        }
        while p < counts.len()
            invariant
                p <= counts@.len(),
                cterms == counts@.map_values(|c: TermCount| c.term@),
                forall|i: int, j: int|
                    0 <= i < j < counts@.len() ==> (#[trigger] counts@[i]).term@ != (
                    #[trigger] counts@[j]).term@,
                forall|i: int|
                    0 <= i < counts@.len() ==> count_occ(toks, (#[trigger] counts@[i]).term@) > 0
                        && counts@[i].count == sat32(count_occ(toks, counts@[i].term@)),
                forall|t: Seq<char>|
                    #[trigger] count_occ(toks, t) > 0 ==> exists|i: int|
                        0 <= i < counts@.len() && (#[trigger] counts@[i]).term@ == t,
                self.tokenizer == old(self).tokenizer,
                self.postings@ == old(self).postings@,
                self.doc_metas@ == old(self).doc_metas@.push(
                    DocMeta { doc_id, doc_len: sat32(toks.len()) },
                ),
                self.total_doc_len == sat_add64(old(self).total_doc_len, sat32(toks.len()) as u64),
                forall|i: int, j: int|
                    0 <= i < j < self.terms@.len() ==> views_of(self.terms@)[i] != views_of(
                        self.terms@,
                    )[j],
                forall|t: Seq<char>| #![auto]
                    self.term_freqs@.contains_key(t) <==> views_of(self.terms@).contains(t),
                forall|t: Seq<char>| #![auto]
                    self.term_freqs@.contains_key(t) ==> wf_docs(self.term_freqs@[t]@),
                self.total_doc_len == (if len_sum(self.doc_metas@) > u64::MAX as nat {
                    u64::MAX as nat
                } else {
                    len_sum(self.doc_metas@)
                }),
                m0 == old(self).model(),
                tgt == spec_add_doc(m0, doc_id, toks),
                toks == spec_tokenize(text@, old(self).tokenizer.min_length),
                forall|i: int|
                    0 <= i < p ==> self.model().contains_key(#[trigger] cterms[i]) && self.model()[
                        cterms[i]
                    ] == tgt[cterms[i]],
                forall|t: Seq<char>|
                    !cterms.take(p as int).contains(t) ==> #[trigger] same_entry(
                        self.model(),
                        m0,
                        t,
                    ),
            decreases counts@.len() - p,
        {
            let ghost head_model = self.model();
            let ghost t = cterms[p as int];
            let c = counts[p].count;
            proof {
                assert(counts@[p as int].term@ == t);
                assert(!cterms.take(p as int).contains(t)) by {
                    if cterms.take(p as int).contains(t) {
                        let i = choose|i: int| 0 <= i < p && cterms.take(p as int)[i] == t;
                        assert((counts@[i]).term@ == (counts@[p as int]).term@);
                    }
                }
                assert(same_entry(head_model, m0, t));
                assert(c == sat32(count_occ(toks, t)));
                assert(count_occ(toks, t) > 0);
            }
            let mut docs_new: Vec<DocFreq> = Vec::new();
            let mut have = false;
            match self.term_freqs.get(counts[p].term.as_str()) {
                Some(dref) => {
                    have = true;
                    let mut q: usize = 0;
                    while q < dref.len()
                        invariant
                            q <= dref@.len(),
                            docs_new@ == dref@.take(q as int),
                        decreases dref@.len() - q,
                    {
                        proof {
                            assert(dref@.take(q + 1).drop_last() =~= dref@.take(q as int));
                            assert(dref@.take(q + 1).last() == dref@[q as int]);
                        }
                        let e = dref[q];
                        docs_new.push(e);
                        proof {
                            assert(docs_new@ =~= dref@.take(q + 1));
                        }
                        q = q + 1;
                    }
                    proof {
                        assert(dref@.take(dref@.len() as int) =~= dref@);
                        assert(docs_new@ == self.term_freqs@[t]@);
                    }
                },
                None => {},
            }
            let ghost old_docs = docs_new@;
            if have {
                proof {
                    assert(self.term_freqs@.contains_key(t));
                    assert(head_model.contains_key(t));
                    assert(head_model[t] == docs_map(old_docs));
                    assert(m0.contains_key(t));
                    assert(m0[t] == docs_map(old_docs));
                    assert(wf_docs(old_docs));
                }
                let mut j2: usize = 0;
                let mut found2 = false;
                while j2 < docs_new.len() && !found2
                    invariant
                        j2 <= docs_new@.len(),
                        docs_new@ == old_docs,
                        !found2 ==> forall|i: int|
                            0 <= i < j2 ==> (#[trigger] old_docs[i]).doc_id != doc_id,
                        found2 ==> j2 < old_docs.len() && old_docs[j2 as int].doc_id == doc_id,
                    decreases docs_new@.len() - j2 + (if found2 { 0int } else { 1int }),
                {
                    if docs_new[j2].doc_id == doc_id {
                        found2 = true;
                    } else {
                        j2 = j2 + 1;
                    }
                }
                if found2 {
                    docs_new.remove(j2);
                    docs_new.insert(j2, DocFreq { doc_id, freq: c });
                    proof {
                        assert(docs_new@ =~= old_docs.update(
                            j2 as int,
                            DocFreq { doc_id, freq: c },
                        ));
                        lemma_docs_map_update(old_docs, j2 as int, DocFreq { doc_id, freq: c });
                        assert(forall|i: int|
                            0 <= i < docs_new@.len() ==> (#[trigger] docs_new@[i]).doc_id
                                == old_docs[i].doc_id);
                        assert(wf_docs(docs_new@));
                    }
                } else {
                    docs_new.push(DocFreq { doc_id, freq: c });
                    proof {
                        assert(docs_new@.drop_last() =~= old_docs);
                        assert(docs_map(docs_new@) == docs_map(old_docs).insert(doc_id, c));
                        assert(forall|i: int|
                            0 <= i < old_docs.len() ==> (#[trigger] docs_new@[i]) == old_docs[i]);
                        assert(wf_docs(docs_new@));
                    }
                }
                proof {
                    assert(docs_map(docs_new@) == docs_map(old_docs).insert(doc_id, c));
                }
                let ghost dn = docs_new@;
                let key = counts[p].term.clone();
                self.term_freqs.insert(key, docs_new);
                proof {
                    // the key was already present: the domain, and so the
                    // term list, are unchanged
                    assert(views_of(self.terms@).contains(t));
                    assert forall|tt: Seq<char>| #![auto]
                        self.term_freqs@.contains_key(tt) <==> views_of(self.terms@).contains(
                        tt,
                    ) by {}
                    assert(self.model().contains_key(t));
                    assert(self.model()[t] == docs_map(dn));
                    assert(tgt[t] == m0[t].insert(doc_id, sat32(count_occ(toks, t))));
                    assert(self.model()[t] == tgt[t]);
                    assert forall|tt: Seq<char>| tt != t implies #[trigger] same_entry(
                        self.model(),
                        head_model,
                        tt,
                    ) by {}
                }
            } else {
                proof {
                    assert(!self.term_freqs@.contains_key(t));
                    assert(!head_model.contains_key(t));
                    assert(!m0.contains_key(t));
                }
                docs_new.push(DocFreq { doc_id, freq: c });
                proof {
                    assert(docs_new@.len() == 1);
                    assert(docs_new@.drop_last() =~= Seq::<DocFreq>::empty());
                    assert(docs_map(Seq::<DocFreq>::empty()) == Map::<u32, u32>::empty());
                    assert(docs_map(docs_new@) == Map::<u32, u32>::empty().insert(doc_id, c));
                    assert(wf_docs(docs_new@));
                }
                let ghost dn = docs_new@;
                let key = counts[p].term.clone();
                let key2 = counts[p].term.clone();
                self.term_freqs.insert(key, docs_new);
                let ghost terms_before = self.terms@;
                self.terms.push(key2);
                proof {
                    assert(views_of(self.terms@).len() == terms_before.len() + 1);
                    assert(forall|i: int|
                        0 <= i < terms_before.len() ==> views_of(self.terms@)[i] == #[trigger] views_of(
                            terms_before,
                        )[i]);
                    assert(views_of(self.terms@)[terms_before.len() as int] == t);
                    assert(!views_of(terms_before).contains(t));
                    assert forall|i: int, j: int|
                        0 <= i < j < self.terms@.len() implies views_of(self.terms@)[i]
                        != views_of(self.terms@)[j] by {
                        if j < terms_before.len() {
                            assert(views_of(self.terms@)[i] == views_of(terms_before)[i]);
                            assert(views_of(self.terms@)[j] == views_of(terms_before)[j]);
                        } else {
                            assert(views_of(self.terms@)[j] == t);
                            assert(views_of(self.terms@)[i] == views_of(terms_before)[i]);
                            if views_of(self.terms@)[i] == t {
                                assert(views_of(terms_before).contains(t));
                            }
                        }
                    }
                    assert forall|tt: Seq<char>| #![auto]
                        self.term_freqs@.contains_key(tt) <==> views_of(self.terms@).contains(
                        tt,
                    ) by {
                        if tt == t {
                            assert(views_of(self.terms@)[terms_before.len() as int] == tt);
                        } else {
                            if views_of(terms_before).contains(tt) {
                                let i = choose|i: int|
                                    0 <= i < terms_before.len() && views_of(terms_before)[i] == tt;
                                assert(views_of(self.terms@)[i] == tt);
                            }
                            if views_of(self.terms@).contains(tt) {
                                let i = choose|i: int|
                                    0 <= i < self.terms@.len() && views_of(self.terms@)[i] == tt;
                                assert(i < terms_before.len());
                                assert(views_of(terms_before)[i] == tt);
                            }
                        }
                    }
                    assert(self.model().contains_key(t));
                    assert(self.model()[t] == docs_map(dn));
                    assert(tgt[t] == Map::<u32, u32>::empty().insert(
                        doc_id,
                        sat32(count_occ(toks, t)),
                    ));
                    assert(self.model()[t] == tgt[t]);
                    assert forall|tt: Seq<char>| tt != t implies #[trigger] same_entry(
                        self.model(),
                        head_model,
                        tt,
                    ) by {}
                }
            }
            proof {
                // restore the progress invariants at p + 1
                assert forall|i: int|
                    0 <= i < p + 1 implies self.model().contains_key(#[trigger] cterms[i])
                    && self.model()[cterms[i]] == tgt[cterms[i]] by {
                    if i < p {
                        assert(cterms[i] != t);
                        assert(same_entry(self.model(), head_model, cterms[i]));
                        assert(head_model.contains_key(cterms[i]) && head_model[cterms[i]]
                            == tgt[cterms[i]]);
                    }
                }
                assert forall|tt: Seq<char>|
                    !cterms.take(p + 1).contains(tt) implies #[trigger] same_entry(
                    self.model(),
                    m0,
                    tt,
                ) by {
                    assert(!cterms.take(p as int).contains(tt)) by {
                        if cterms.take(p as int).contains(tt) {
                            let i = choose|i: int| 0 <= i < p && cterms.take(p as int)[i] == tt;
                            assert(cterms.take(p + 1)[i] == tt);
                        }
                    }
                    assert(tt != t) by {
                        if tt == t {
                            assert(cterms.take(p + 1)[p as int] == t);
                        }
                    }
                    assert(same_entry(self.model(), head_model, tt));
                    assert(same_entry(head_model, m0, tt));
                }
            }
            p = p + 1;
        }
        proof {
            // every term of the document was processed, everything else kept
            assert forall|t: Seq<char>| #![auto]
                self.model().dom().contains(t) <==> tgt.dom().contains(t) by {
                if count_occ(toks, t) > 0 {
                    let i = choose|i: int|
                        0 <= i < counts@.len() && (#[trigger] counts@[i]).term@ == t;
                    assert(cterms[i] == t);
                    assert(self.model().contains_key(cterms[i]));
                } else {
                    assert(!cterms.take(p as int).contains(t)) by {
                        if cterms.take(p as int).contains(t) {
                            let i = choose|i: int| 0 <= i < p && cterms.take(p as int)[i] == t;
                            assert(count_occ(toks, (counts@[i]).term@) > 0);
                        }
                    }
                    assert(same_entry(self.model(), m0, t));
                }
            }
            assert forall|t: Seq<char>| #![auto]
                self.model().dom().contains(t) && tgt.dom().contains(t) implies self.model()[t]
                == tgt[t] by {
                if count_occ(toks, t) > 0 {
                    let i = choose|i: int|
                        0 <= i < counts@.len() && (#[trigger] counts@[i]).term@ == t;
                    assert(cterms[i] == t);
                    assert(self.model()[cterms[i]] == tgt[cterms[i]]);
                } else {
                    assert(!cterms.take(p as int).contains(t)) by {
                        if cterms.take(p as int).contains(t) {
                            let i = choose|i: int| 0 <= i < p && cterms.take(p as int)[i] == t;
                            assert(count_occ(toks, (counts@[i]).term@) > 0);
                        }
                    }
                    assert(same_entry(self.model(), m0, t));
                    assert(tgt[t] == m0[t]);
                }
            }
            assert(self.model() =~= tgt);
        }
    }

    /// Rebuild every term's compressed postings from the frequency table:
    /// each term's document ids, sorted ascending, delta-varint encoded.
    /// Everything else is untouched.
    pub fn build(&mut self)
        requires
            old(self).wf(),
        ensures
            final(self).wf(),
            final(self).tokenizer == old(self).tokenizer,
            final(self).doc_metas@ == old(self).doc_metas@,
            final(self).total_doc_len == old(self).total_doc_len,
            final(self).term_freqs@ == old(self).term_freqs@,
            final(self).terms@ == old(self).terms@,
            final(self).model() == old(self).model(),
            forall|t: Seq<char>| #![auto]
                final(self).postings@.contains_key(t) <==> old(self).model().contains_key(t),
            forall|t: Seq<char>| #![auto]
                final(self).postings@.contains_key(t) ==> exists|ids: Seq<u32>|
                    sorted_strict(ids) && (forall|d: u32| #![auto]
                        ids.contains(d) <==> old(self).model()[t].contains_key(d))
                        && final(self).postings@[t]@ == postings_encoding(ids),
    {
        let mut new_post: StringHashMap<Vec<u8>> = StringHashMap::new();
        let mut i: usize = 0;
        while i < self.terms.len()
            invariant
                i <= self.terms@.len(),
                *self == *old(self),
                old(self).wf(),
                forall|j: int|
                    0 <= j < i ==> new_post@.contains_key(#[trigger] views_of(self.terms@)[j]),
                forall|t: Seq<char>| #![auto]
                    new_post@.contains_key(t) ==> views_of(self.terms@).contains(t),
                forall|t: Seq<char>| #![auto]
                    new_post@.contains_key(t) ==> exists|ids: Seq<u32>|
                        sorted_strict(ids) && (forall|d: u32| #![auto]
                            ids.contains(d) <==> self.model()[t].contains_key(d)) && new_post@[
                            t
                        ]@ == postings_encoding(ids),
            decreases self.terms@.len() - i,
        {
            let ghost t = views_of(self.terms@)[i as int];
            proof {
                assert(views_of(self.terms@).contains(t));
                assert(self.term_freqs@.contains_key(t));
            }
            match self.term_freqs.get(self.terms[i].as_str()) {
                Some(docs) => {
                    proof {
                        assert(docs@ == self.term_freqs@[t]@);
                        assert(wf_docs(docs@));
                        lemma_docs_map_props(docs@);
                    }
                    let mut ids: Vec<u32> = Vec::new();
                    let mut q: usize = 0;
                    while q < docs.len()
                        invariant
                            q <= docs@.len(),
                            sorted_strict(ids@),
                            forall|d: u32| #![auto]
                                ids@.contains(d) <==> exists|r: int|
                                    0 <= r < q && (#[trigger] docs@[r]).doc_id == d,
                        decreases docs@.len() - q,
                    {
                        let ghost before_ids = ids@;
                        insert_id(&mut ids, docs[q].doc_id);
                        proof {
                            assert forall|d: u32| #![auto]
                                ids@.contains(d) <==> exists|r: int|
                                    0 <= r < q + 1 && (#[trigger] docs@[r]).doc_id == d by {
                                if ids@.contains(d) {
                                    if before_ids.contains(d) {
                                        let r = choose|r: int|
                                            0 <= r < q && (#[trigger] docs@[r]).doc_id == d;
                                        assert(0 <= r < q + 1 && docs@[r].doc_id == d);
                                    } else {
                                        assert(docs@[q as int].doc_id == d);
                                    }
                                }
                                if exists|r: int|
                                    0 <= r < q + 1 && (#[trigger] docs@[r]).doc_id == d {
                                    let r = choose|r: int|
                                        0 <= r < q + 1 && (#[trigger] docs@[r]).doc_id == d;
                                    if r < q {
                                        assert(before_ids.contains(d));
                                    }
                                }
                            }
                        }
                        q = q + 1;
                    }
                    proof {
                        assert forall|d: u32| #![auto]
                            ids@.contains(d) <==> self.model()[t].contains_key(d) by {
                            if self.model()[t].contains_key(d) {
                                assert(docs_map(docs@).contains_key(d));
                                let r = choose|r: int|
                                    0 <= r < docs@.len() && (#[trigger] docs@[r]).doc_id == d;
                            }
                        }
                    }
                    let bytes = encode_postings(ids.as_slice());
                    let key = self.terms[i].clone();
                    let ghost idsv = ids@;
                    new_post.insert(key, bytes);
                    proof {
                        assert(new_post@[t]@ == postings_encoding(idsv));
                        assert forall|tt: Seq<char>| #![auto]
                            new_post@.contains_key(tt) implies views_of(self.terms@).contains(
                            tt,
                        ) by {}
                    }
                },
                None => {
                    proof {
                        assert(false);
                    }
                },
            }
            i = i + 1;
        }
        proof {
            assert forall|t: Seq<char>| #![auto]
                self.model().contains_key(t) implies new_post@.contains_key(t) by {
                assert(self.term_freqs@.contains_key(t));
                assert(views_of(self.terms@).contains(t));
                let j = choose|j: int|
                    0 <= j < self.terms@.len() && views_of(self.terms@)[j] == t;
            }
            assert forall|t: Seq<char>| #![auto]
                new_post@.contains_key(t) implies self.model().contains_key(t) by {
                assert(views_of(self.terms@).contains(t));
            }
        }
        self.postings = new_post;
    }

    /// Collect, per candidate document of a query, the exact quantities BM25
    /// scoring needs: its recorded length, and for each query token present
    /// in the corpus and in that document, the token's frequency there and
    /// its document frequency. A document is a candidate when at least one
    /// query token's postings hold it. An empty query, or one whose tokens
    /// all miss the corpus, yields no candidates. The order of the returned
    /// candidates is unspecified; `rank_top_k` orders them totally.
    pub fn score_inputs(&self, query: &str) -> (r: Vec<Candidate>)
        requires
            self.wf(),
        ensures
            ({
                let toks = spec_tokenize(query@, self.tokenizer.min_length);
                &&& forall|i: int, j: int|
                    0 <= i < j < r@.len() ==> (#[trigger] r@[i]).doc_id != (
                    #[trigger] r@[j]).doc_id
                &&& forall|i: int|
                    0 <= i < r@.len() ==> is_candidate(
                        self.model(),
                        toks,
                        (#[trigger] r@[i]).doc_id,
                    )
                &&& forall|d: u32|
                    #[trigger] is_candidate(self.model(), toks, d) ==> exists|i: int|
                        0 <= i < r@.len() && (#[trigger] r@[i]).doc_id == d
                &&& forall|i: int|
                    0 <= i < r@.len() ==> (#[trigger] r@[i]).doc_len == first_meta_len(
                        self.doc_metas@,
                        r@[i].doc_id,
                    )
                &&& forall|i: int|
                    0 <= i < r@.len() ==> (#[trigger] r@[i]).hits@ == spec_hits(
                        self.model(),
                        toks,
                        r@[i].doc_id,
                    )
                &&& toks.len() == 0 ==> r@.len() == 0
                &&& query@.len() == 0 ==> r@.len() == 0
                &&& (forall|t: Seq<char>| #![auto]
                    toks.contains(t) ==> !self.model().contains_key(t)) ==> r@.len() == 0
            }),
    {
        let tokens = self.tokenizer.tokenize(query);
        let ghost toks = spec_tokenize(query@, self.tokenizer.min_length);
        let mut cand_ids: Vec<u32> = Vec::new();
        let mut k: usize = 0;
        proof {
            assert(toks.take(0) =~= Seq::<Seq<char>>::empty());
        }
        while k < tokens.len()
            invariant
                k <= tokens@.len(),
                self.wf(),
                views_of(tokens@) == toks,
                forall|i: int, j: int|
                    0 <= i < j < cand_ids@.len() ==> cand_ids@[i] != cand_ids@[j],
                forall|i: int|
                    0 <= i < cand_ids@.len() ==> is_candidate(
                        self.model(),
                        toks.take(k as int),
                        #[trigger] cand_ids@[i],
                    ),
                forall|d: u32|
                    #[trigger] is_candidate(self.model(), toks.take(k as int), d)
                        ==> cand_ids@.contains(d),
            decreases tokens@.len() - k,
        {
            let ghost tk = toks[k as int];
            proof {
                let cur = toks.take(k as int);
                let nxt = toks.take(k + 1);
                assert(tk == views_of(tokens@)[k as int]);
                // a candidate of the longer prefix is one of the shorter, or hits tk
                assert forall|d: u32|
                    #[trigger] is_candidate(self.model(), toks.take(k + 1), d) implies (
                is_candidate(self.model(), toks.take(k as int), d) || (
                self.model().contains_key(tk) && self.model()[tk].contains_key(d))) by {
                    let t = choose|t: Seq<char>| #![auto]
                        nxt.contains(t) && self.model().contains_key(t)
                            && self.model()[t].contains_key(d);
                    let w = choose|w: int| 0 <= w < nxt.len() && nxt[w] == t;
                    if w < k {
                        assert(cur[w] == t);
                        assert(cur.contains(t));
                    } else {
                        assert(t == tk);
                    }
                }
                assert forall|d: u32|
                    is_candidate(self.model(), toks.take(k as int), d) implies #[trigger]
                is_candidate(self.model(), toks.take(k + 1), d) by {
                    let t = choose|t: Seq<char>| #![auto]
                        cur.contains(t) && self.model().contains_key(t)
                            && self.model()[t].contains_key(d);
                    let w = choose|w: int| 0 <= w < cur.len() && cur[w] == t;
                    assert(nxt[w] == t);
                    assert(nxt.contains(t));
                }
            }
            match self.term_freqs.get(tokens[k].as_str()) {
                Some(docs) => {
                    proof {
                        assert(docs@ == self.term_freqs@[tk]@);
                        assert(wf_docs(docs@));
                        lemma_docs_map_props(docs@);
                        assert(self.model().contains_key(tk));
                        assert(self.model()[tk] == docs_map(docs@));
                    }
                    let mut q: usize = 0;
                    while q < docs.len()
                        invariant
                            q <= docs@.len(),
                            self.wf(),
                            views_of(tokens@) == toks,
                            k < tokens@.len(),
                            tk == toks[k as int],
                            docs@ == self.term_freqs@[tk]@,
                            self.model().contains_key(tk),
                            self.model()[tk] == docs_map(docs@),
                            forall|i: int, j: int|
                                0 <= i < j < cand_ids@.len() ==> cand_ids@[i] != cand_ids@[j],
                            forall|i: int|
                                0 <= i < cand_ids@.len() ==> is_candidate(
                                    self.model(),
                                    toks.take(k + 1),
                                    #[trigger] cand_ids@[i],
                                ),
                            forall|d: u32|
                                #[trigger] is_candidate(self.model(), toks.take(k as int), d)
                                    ==> cand_ids@.contains(d),
                            forall|r: int|
                                0 <= r < q ==> cand_ids@.contains(
                                    (#[trigger] docs@[r]).doc_id,
                                ),
                        decreases docs@.len() - q,
                    {
                        proof {
                            lemma_docs_map_props(docs@);
                        }
                        let d = docs[q].doc_id;
                        let present = contains_id(&cand_ids, d);
                        if !present {
                            let ghost before = cand_ids@;
                            cand_ids.push(d);
                            proof {
                                assert(forall|i: int|
                                    0 <= i < before.len() ==> cand_ids@[i] == #[trigger] before[
                                        i
                                    ]);
                                assert(cand_ids@[before.len() as int] == d);
                                assert(docs_map(docs@).contains_key(d));
                                assert(toks.take(k + 1)[k as int] == tk);
                                assert(toks.take(k + 1).contains(tk));
                                assert(is_candidate(self.model(), toks.take(k + 1), d));
                                assert forall|dd: u32|
                                    #[trigger] is_candidate(
                                        self.model(),
                                        toks.take(k as int),
                                        dd,
                                    ) implies cand_ids@.contains(dd) by {
                                    assert(before.contains(dd));
                                    let w = choose|w: int|
                                        0 <= w < before.len() && before[w] == dd;
                                    assert(cand_ids@[w] == dd);
                                }
                                assert forall|r: int|
                                    0 <= r < q + 1 implies cand_ids@.contains(
                                    (#[trigger] docs@[r]).doc_id,
                                ) by {
                                    if r < q {
                                        assert(before.contains(docs@[r].doc_id));
                                        let w = choose|w: int|
                                            0 <= w < before.len() && before[w] == docs@[r].doc_id;
                                        assert(cand_ids@[w] == docs@[r].doc_id);
                                    } else {
                                        assert(cand_ids@[before.len() as int] == docs@[r].doc_id);
                                    }
                                }
                            }
                        } else {
                            proof {
                                assert(cand_ids@.contains(docs@[q as int].doc_id));
                            }
                        }
                        q = q + 1;
                    }
                    proof {
                        assert forall|d: u32|
                            #[trigger] is_candidate(self.model(), toks.take(k + 1), d)
                                implies cand_ids@.contains(d) by {
                            if !is_candidate(self.model(), toks.take(k as int), d) {
                                assert(self.model()[tk].contains_key(d));
                                assert(docs_map(docs@).contains_key(d));
                                let r = choose|r: int|
                                    0 <= r < docs@.len() && (#[trigger] docs@[r]).doc_id == d;
                            }
                        }
                    }
                },
                None => {
                    proof {
                        assert(!self.model().contains_key(tk));
                        assert forall|d: u32|
                            #[trigger] is_candidate(self.model(), toks.take(k + 1), d)
                                implies cand_ids@.contains(d) by {
                            assert(is_candidate(self.model(), toks.take(k as int), d));
                        }
                    }
                },
            }
            k = k + 1;
        }
        proof {
            assert(toks.take(k as int) =~= toks);
        }
        // assemble the scoring inputs per candidate
        let mut out: Vec<Candidate> = Vec::new();
        let mut c: usize = 0;
        while c < cand_ids.len()
            invariant
                c <= cand_ids@.len(),
                self.wf(),
                views_of(tokens@) == toks,
                forall|i: int, j: int|
                    0 <= i < j < cand_ids@.len() ==> cand_ids@[i] != cand_ids@[j],
                forall|i: int|
                    0 <= i < cand_ids@.len() ==> is_candidate(
                        self.model(),
                        toks,
                        #[trigger] cand_ids@[i],
                    ),
                forall|d: u32|
                    #[trigger] is_candidate(self.model(), toks, d) ==> cand_ids@.contains(d),
                out@.len() == c,
                forall|i: int| 0 <= i < c ==> (#[trigger] out@[i]).doc_id == cand_ids@[i],
                forall|i: int|
                    0 <= i < c ==> (#[trigger] out@[i]).doc_len == first_meta_len(
                        self.doc_metas@,
                        cand_ids@[i],
                    ),
                forall|i: int|
                    0 <= i < c ==> (#[trigger] out@[i]).hits@ == spec_hits(
                        self.model(),
                        toks,
                        cand_ids@[i],
                    ),
            decreases cand_ids@.len() - c,
        {
            let d = cand_ids[c];
            let dl = doc_len_of(&self.doc_metas, d);
            let mut hits: Vec<TermHit> = Vec::new();
            let mut h: usize = 0;
            proof {
                assert(toks.take(0) =~= Seq::<Seq<char>>::empty());
            }
            while h < tokens.len()
                invariant
                    h <= tokens@.len(),
                    self.wf(),
                    views_of(tokens@) == toks,
                    hits@ == spec_hits(self.model(), toks.take(h as int), d),
                decreases tokens@.len() - h,
            {
                let ghost th = toks[h as int];
                proof {
                    assert(th == views_of(tokens@)[h as int]);
                    assert(toks.take(h + 1).drop_last() =~= toks.take(h as int));
                    assert(toks.take(h + 1).last() == th);
                }
                match self.term_freqs.get(tokens[h].as_str()) {
                    Some(docs) => {
                        proof {
                            assert(docs@ == self.term_freqs@[th]@);
                            assert(wf_docs(docs@));
                            lemma_docs_map_props(docs@);
                            assert(self.model().contains_key(th));
                            assert(self.model()[th] == docs_map(docs@));
                        }
                        let mut w: usize = 0;
                        let mut found = false;
                        let mut tf: u32 = 0;
                        while w < docs.len() && !found
                            invariant
                                w <= docs@.len(),
                                !found ==> forall|r: int|
                                    0 <= r < w ==> (#[trigger] docs@[r]).doc_id != d,
                                found ==> w < docs@.len() && docs@[w as int].doc_id == d && tf
                                    == docs@[w as int].freq,
                            decreases docs@.len() - w + (if found { 0int } else { 1int }),
                        {
                            if docs[w].doc_id == d {
                                tf = docs[w].freq;
                                found = true;
                            } else {
                                w = w + 1;
                            }
                        }
                        if found {
                            proof {
                                assert(docs_map(docs@).contains_key(d));
                                assert(docs_map(docs@)[d] == tf);
                                assert(docs_map(docs@).dom().len() == docs@.len());
                            }
                            hits.push(TermHit { term_freq: tf, doc_freq: docs.len() });
                            proof {
                                assert(hits@ =~= spec_hits(self.model(), toks.take(h as int), d).push(
                                    TermHit {
                                        term_freq: docs_map(docs@)[d],
                                        doc_freq: docs_map(docs@).dom().len() as usize,
                                    },
                                ));
                            }
                        } else {
                            proof {
                                assert(!docs_map(docs@).contains_key(d)) by {
                                    if docs_map(docs@).contains_key(d) {
                                        let r = choose|r: int|
                                            0 <= r < docs@.len() && (#[trigger] docs@[r]).doc_id
                                                == d;
                                    }
                                }
                            }
                        }
                    },
                    None => {
                        proof {
                            assert(!self.model().contains_key(th));
                        }
                    },
                }
                h = h + 1;
            }
            proof {
                assert(toks.take(h as int) =~= toks);
            }
            out.push(Candidate { doc_id: d, doc_len: dl, hits });
            c = c + 1;
        }
        proof {
            assert(out@.len() == cand_ids@.len());
            assert forall|i: int, j: int|
                0 <= i < j < out@.len() implies (#[trigger] out@[i]).doc_id != (
            #[trigger] out@[j]).doc_id by {
                assert(out@[i].doc_id == cand_ids@[i]);
                assert(out@[j].doc_id == cand_ids@[j]);
            }
            assert forall|d: u32|
                #[trigger] is_candidate(self.model(), toks, d) implies exists|i: int|
                0 <= i < out@.len() && (#[trigger] out@[i]).doc_id == d by {
                assert(cand_ids@.contains(d));
                let w = choose|w: int| 0 <= w < cand_ids@.len() && cand_ids@[w] == d;
                assert(out@[w].doc_id == d);
            }
            if cand_ids@.len() > 0 {
                assert(is_candidate(self.model(), toks, cand_ids@[0]));
            }
            if toks.len() == 0 {
                if cand_ids@.len() > 0 {
                    let t = choose|t: Seq<char>| #![auto]
                        toks.contains(t) && self.model().contains_key(t)
                            && self.model()[t].contains_key(cand_ids@[0]);
                    assert(false);
                }
            }
            if query@.len() == 0 {
                assert(toks.len() == 0);
            }
            if forall|t: Seq<char>| #![auto]
                toks.contains(t) ==> !self.model().contains_key(t) {
                if cand_ids@.len() > 0 {
                    let t = choose|t: Seq<char>| #![auto]
                        toks.contains(t) && self.model().contains_key(t)
                            && self.model()[t].contains_key(cand_ids@[0]);
                    assert(false);
                }
            }
        }
        out
    }
}

/// Whether some query token's postings hold document `d`.
pub open spec fn is_candidate(
    m: Map<Seq<char>, Map<u32, u32>>,
    toks: Seq<Seq<char>>,
    d: u32,
) -> bool {
    exists|t: Seq<char>| #![auto] toks.contains(t) && m.contains_key(t) && m[t].contains_key(d)
}

/// The recorded length of document `d`: the first matching metadata entry,
/// or one for a document the index never saw.
pub open spec fn first_meta_len(metas: Seq<DocMeta>, d: u32) -> u32
    decreases metas.len(),
{
    if metas.len() == 0 {
        1
    } else if metas[0].doc_id == d {
        metas[0].doc_len
    } else {
        first_meta_len(metas.drop_first(), d)
    }
}

/// One query token's contribution to a candidate document: the token's
/// frequency in the document and its document frequency in the corpus.
#[derive(Debug, Clone, Copy, PartialEq, Eq, Structural)]
pub struct TermHit {
    /// Occurrences of the token in the candidate document.
    pub term_freq: u32,
    /// Number of documents containing the token.
    pub doc_freq: usize,
}

/// A candidate document with everything its BM25 score is computed from.
#[derive(Debug, Clone)]
pub struct Candidate {
    /// The candidate document.
    pub doc_id: u32,
    /// Its recorded token count.
    pub doc_len: u32,
    /// One entry per query token found in this document, in query order,
    /// duplicated tokens included.
    pub hits: Vec<TermHit>,
}

/// The hits of document `d` for a token list: one entry per token present
/// both in the corpus and in `d`, in token order.
pub open spec fn spec_hits(
    m: Map<Seq<char>, Map<u32, u32>>,
    toks: Seq<Seq<char>>,
    d: u32,
) -> Seq<TermHit>
    decreases toks.len(),
{
    if toks.len() == 0 {
        Seq::empty()
    } else {
        let rest = spec_hits(m, toks.drop_last(), d);
        let t = toks.last();
        if m.contains_key(t) && m[t].contains_key(d) {
            rest.push(TermHit { term_freq: m[t][d], doc_freq: m[t].dom().len() as usize })
        } else {
            rest
        }
    }
}

/// Whether `v` holds `x`.
fn contains_id(v: &Vec<u32>, x: u32) -> (r: bool)
    ensures
        r == v@.contains(x),
{
    let mut i: usize = 0;
    while i < v.len()
        invariant
            i <= v@.len(),
            forall|j: int| 0 <= j < i ==> v@[j] != x,
        decreases v@.len() - i,
    {
        if v[i] == x {
            return true;
        }
        i = i + 1;
    }
    proof {
        if v@.contains(x) {
            let j = choose|j: int| 0 <= j < v@.len() && v@[j] == x;
        }
    }
    false
}

/// Insert an id into a strictly ascending list, keeping it strictly
/// ascending; an id already present is left alone.
fn insert_id(v: &mut Vec<u32>, x: u32)
    requires
        sorted_strict(old(v)@),
    ensures
        sorted_strict(final(v)@),
        forall|d: u32| #![auto] final(v)@.contains(d) <==> old(v)@.contains(d) || d == x,
{
    let mut i: usize = 0;
    while i < v.len() && v[i] < x
        invariant
            i <= v@.len(),
            v@ == old(v)@,
            forall|j: int| 0 <= j < i ==> v@[j] < x,
        decreases v@.len() - i,
    {
        i = i + 1;
    }
    if i < v.len() && v[i] == x {
        proof {
            assert(v@[i as int] == x);
            assert forall|d: u32| #![trigger old(v)@.contains(d)]
                v@.contains(d) <==> old(v)@.contains(d) || d == x by {
                if d == x {
                    assert(v@[i as int] == d);
                }
            }
            assert forall|d: u32| #![trigger v@.contains(d)]
                v@.contains(d) <==> old(v)@.contains(d) || d == x by {
                if d == x {
                    assert(v@[i as int] == d);
                }
            }
        }
    } else {
        let ghost before = v@;
        v.insert(i, x);
        proof {
            assert(v@ == before.insert(i as int, x));
            assert forall|pq: int, qq: int| 0 <= pq < qq < v@.len() implies v@[pq] < v@[qq] by {
                assert(v@[pq] == if pq < i {
                    before[pq]
                } else if pq == i {
                    x
                } else {
                    before[pq - 1]
                });
                assert(v@[qq] == if qq < i {
                    before[qq]
                } else if qq == i {
                    x
                } else {
                    before[qq - 1]
                });
                if i < before.len() {
                    assert(!(before[i as int] < x));
                    assert(before[i as int] != x);
                }
            }
            assert(before == old(v)@);
            assert forall|d: u32| #![trigger old(v)@.contains(d)]
                v@.contains(d) <==> old(v)@.contains(d) || d == x by {
                if v@.contains(d) {
                    let j = choose|j: int| 0 <= j < v@.len() && v@[j] == d;
                    if j < i {
                        assert(before[j] == d);
                    } else if j > i {
                        assert(before[j - 1] == d);
                    }
                }
                if before.contains(d) {
                    let j = choose|j: int| 0 <= j < before.len() && before[j] == d;
                    if j < i {
                        assert(v@[j] == d);
                    } else {
                        assert(v@[j + 1] == d);
                    }
                }
                if d == x {
                    assert(v@[i as int] == d);
                }
            }
            assert forall|d: u32| #![trigger v@.contains(d)]
                v@.contains(d) <==> old(v)@.contains(d) || d == x by {
                if v@.contains(d) {
                    let j = choose|j: int| 0 <= j < v@.len() && v@[j] == d;
                    if j < i {
                        assert(before[j] == d);
                    } else if j > i {
                        assert(before[j - 1] == d);
                    }
                }
                if old(v)@.contains(d) {
                    let j = choose|j: int| 0 <= j < before.len() && before[j] == d;
                    if j < i {
                        assert(v@[j] == d);
                    } else {
                        assert(v@[j + 1] == d);
                    }
                }
                if d == x {
                    assert(v@[i as int] == d);
                }
            }
        }
    }
}

/// The recorded length of document `d`, by the first matching entry.
fn doc_len_of(metas: &Vec<DocMeta>, d: u32) -> (r: u32)
    ensures
        r == first_meta_len(metas@, d),
{
    let mut i: usize = 0;
    proof {
        assert(metas@.skip(0) =~= metas@);
    }
    while i < metas.len()
        invariant
            i <= metas@.len(),
            first_meta_len(metas@, d) == first_meta_len(metas@.skip(i as int), d),
        decreases metas@.len() - i,
    {
        proof {
            assert(metas@.skip(i as int)[0] == metas@[i as int]);
            assert(metas@.skip(i as int).drop_first() =~= metas@.skip(i + 1));
        }
        if metas[i].doc_id == d {
            return metas[i].doc_len;
        }
        i = i + 1;
    }
    proof {
        assert(metas@.skip(i as int) =~= Seq::<DocMeta>::empty());
    }
    1
}

/// A candidate with its score, encoded as an order-preserving integer key:
/// for non-negative IEEE 754 single-precision scores, the bit pattern orders
/// exactly as the score does, so callers pass the score's bits.
#[derive(Debug, Clone, Copy, PartialEq, Eq, Structural)]
pub struct ScoredDoc {
    /// The candidate document.
    pub doc_id: u32,
    /// The score's order-preserving integer key.
    pub score_key: u32,
}

/// A ranked search result.
#[derive(Debug, Clone, Copy, PartialEq, Eq, Structural)]
pub struct RankedResult {
    /// The document.
    pub doc_id: u32,
    /// Its score key, as passed in.
    pub score_key: u32,
    /// Zero-based position in the ranking.
    pub rank: usize,
}

/// Ranking order: higher score first; among equal scores, the smaller
/// document id first, as a deterministic tie-break.
pub open spec fn rank_le(a: ScoredDoc, b: ScoredDoc) -> bool {
    a.score_key > b.score_key || (a.score_key == b.score_key && a.doc_id <= b.doc_id)
}

/// Insertion of one entry into a ranked list, before the first entry it does
/// not rank behind.
pub open spec fn spec_insert_ranked(s: Seq<ScoredDoc>, e: ScoredDoc) -> Seq<ScoredDoc>
    decreases s.len(),
{
    if s.len() == 0 {
        seq![e]
    } else if rank_le(e, s[0]) {
        seq![e] + s
    } else {
        seq![s[0]] + spec_insert_ranked(s.drop_first(), e)
    }
}

/// The ranked ordering of a list of scored candidates.
pub open spec fn spec_sort_ranked(s: Seq<ScoredDoc>) -> Seq<ScoredDoc>
    decreases s.len(),
{
    if s.len() == 0 {
        Seq::empty()
    } else {
        spec_insert_ranked(spec_sort_ranked(s.drop_last()), s.last())
    }
}

/// The first `k` entries of the ranked ordering, each with its rank.
pub open spec fn spec_rank(s: Seq<ScoredDoc>, k: nat) -> Seq<RankedResult> {
    let sorted = spec_sort_ranked(s);
    Seq::new(
        if s.len() < k {
            s.len()
        } else {
            k
        },
        |i: int|
            RankedResult {
                doc_id: sorted[i].doc_id,
                score_key: sorted[i].score_key,
                rank: i as usize,
            },
    )
}

/// Ranked insertion keeps the list's length and order and adds the entry.
pub proof fn lemma_insert_ranked_props(s: Seq<ScoredDoc>, e: ScoredDoc)
    requires
        forall|i: int, j: int| 0 <= i < j < s.len() ==> rank_le(#[trigger] s[i], #[trigger] s[j]),
    ensures
        spec_insert_ranked(s, e).len() == s.len() + 1,
        forall|i: int, j: int|
            0 <= i < j < spec_insert_ranked(s, e).len() ==> rank_le(
                #[trigger] spec_insert_ranked(s, e)[i],
                #[trigger] spec_insert_ranked(s, e)[j],
            ),
        spec_insert_ranked(s, e).to_multiset() == s.to_multiset().insert(e),
    decreases s.len(),
{
    broadcast use vstd::seq_lib::group_to_multiset_ensures;

    let out = spec_insert_ranked(s, e);
    if s.len() == 0 {
        assert(out =~= Seq::empty().push(e));
        assert(Seq::<ScoredDoc>::empty().push(e).to_multiset() == Seq::<
            ScoredDoc,
        >::empty().to_multiset().insert(e));
        assert(s.to_multiset() == Seq::<ScoredDoc>::empty().to_multiset());
    } else if rank_le(e, s[0]) {
        assert(out == seq![e] + s);
        assert forall|i: int, j: int| 0 <= i < j < out.len() implies rank_le(
            #[trigger] out[i],
            #[trigger] out[j],
        ) by {
            if i == 0 {
                assert(out[0] == e);
                assert(out[j] == s[j - 1]);
                if j > 1 {
                    assert(rank_le(s[0], s[j - 1]));
                }
            } else {
                assert(out[i] == s[i - 1] && out[j] == s[j - 1]);
            }
        }
        assert(out =~= s.insert(0, e));
        assert(s.insert(0, e).to_multiset() == s.to_multiset().insert(e));
    } else {
        let rest = s.drop_first();
        assert(forall|i: int, j: int|
            0 <= i < j < rest.len() ==> rank_le(#[trigger] rest[i], #[trigger] rest[j]));
        lemma_insert_ranked_props(rest, e);
        let inner = spec_insert_ranked(rest, e);
        assert(out == seq![s[0]] + inner);
        // the head ranks before everything that follows it
        assert(!rank_le(e, s[0]));
        assert(rank_le(s[0], e));
        assert forall|j: int| 0 <= j < inner.len() implies rank_le(s[0], #[trigger] inner[j]) by {
            assert(inner.to_multiset().contains(inner[j]));
            assert(inner.to_multiset() == rest.to_multiset().insert(e));
            if inner[j] == e {
            } else {
                assert(rest.to_multiset().contains(inner[j]));
                assert(rest.contains(inner[j]));
                let w = choose|w: int| 0 <= w < rest.len() && rest[w] == inner[j];
                assert(rank_le(s[0], s[w + 1]));
            }
        }
        assert forall|i: int, j: int| 0 <= i < j < out.len() implies rank_le(
            #[trigger] out[i],
            #[trigger] out[j],
        ) by {
            if i == 0 {
                assert(out[j] == inner[j - 1]);
            } else {
                assert(out[i] == inner[i - 1] && out[j] == inner[j - 1]);
            }
        }
        assert(out =~= inner.insert(0, s[0]));
        assert(inner.insert(0, s[0]).to_multiset() == inner.to_multiset().insert(s[0]));
        assert(s =~= rest.insert(0, s[0]));
        assert(rest.insert(0, s[0]).to_multiset() == rest.to_multiset().insert(s[0]));
        assert(out.to_multiset() =~= s.to_multiset().insert(e));
    }
}

/// Ranking law: the ranked ordering of any candidate list is a permutation
/// of it, sorted by descending score key with ascending document id breaking
/// ties.
pub proof fn lemma_sort_ranked_props(s: Seq<ScoredDoc>)
    ensures
        spec_sort_ranked(s).len() == s.len(),
        forall|i: int, j: int|
            0 <= i < j < spec_sort_ranked(s).len() ==> rank_le(
                #[trigger] spec_sort_ranked(s)[i],
                #[trigger] spec_sort_ranked(s)[j],
            ),
        spec_sort_ranked(s).to_multiset() == s.to_multiset(),
    decreases s.len(),
{
    broadcast use vstd::seq_lib::group_to_multiset_ensures;

    if s.len() > 0 {
        lemma_sort_ranked_props(s.drop_last());
        lemma_insert_ranked_props(spec_sort_ranked(s.drop_last()), s.last());
        assert(s =~= s.drop_last().push(s.last()));
        assert(s.drop_last().push(s.last()).to_multiset() == s.drop_last().to_multiset().insert(
            s.last(),
        ));
    }
}

/// Whether `a` ranks no worse than `b`.
fn rank_le_exec(a: &ScoredDoc, b: &ScoredDoc) -> (r: bool)
    ensures
        r == rank_le(*a, *b),
{
    a.score_key > b.score_key || (a.score_key == b.score_key && a.doc_id <= b.doc_id)
}

/// Inserting at the first position whose entry the new one ranks no worse
/// than realizes `spec_insert_ranked`.
proof fn lemma_insert_ranked_at(s: Seq<ScoredDoc>, e: ScoredDoc, i: int)
    requires
        0 <= i <= s.len(),
        forall|j: int| 0 <= j < i ==> !rank_le(e, #[trigger] s[j]),
        i < s.len() ==> rank_le(e, s[i]),
    ensures
        spec_insert_ranked(s, e) == s.insert(i, e),
    decreases i,
{
    if i == 0 {
        if s.len() == 0 {
            assert(spec_insert_ranked(s, e) =~= s.insert(0, e));
        } else {
            assert(spec_insert_ranked(s, e) == seq![e] + s);
            assert(seq![e] + s =~= s.insert(0, e));
        }
    } else {
        let rest = s.drop_first();
        lemma_insert_ranked_at(rest, e, i - 1);
        assert(forall|j: int| 0 <= j < rest.len() ==> rest[j] == s[j + 1]);
        assert(spec_insert_ranked(s, e) == seq![s[0]] + spec_insert_ranked(rest, e));
        assert(seq![s[0]] + rest.insert(i - 1, e) =~= s.insert(i, e));
    }
}

/// Insert one scored candidate into a ranked list.
fn insert_ranked(v: &mut Vec<ScoredDoc>, e: ScoredDoc)
    ensures
        final(v)@ == spec_insert_ranked(old(v)@, e),
{
    let mut i: usize = 0;
    while i < v.len() && !rank_le_exec(&e, &v[i])
        invariant
            i <= v@.len(),
            v@ == old(v)@,
            forall|j: int| 0 <= j < i ==> !rank_le(e, #[trigger] v@[j]),
        decreases v@.len() - i,
    {
        i = i + 1;
    }
    proof {
        lemma_insert_ranked_at(v@, e, i as int);
    }
    v.insert(i, e);
}

/// Rank scored candidates: sort by descending score key (ascending document
/// id among equals), truncate to the first `k`, and attach zero-based ranks.
pub fn rank_top_k(scored: &Vec<ScoredDoc>, k: usize) -> (r: Vec<RankedResult>)
    ensures
        r@ == spec_rank(scored@, k as nat),
{
    let mut sorted_v: Vec<ScoredDoc> = Vec::new();
    let mut i: usize = 0;
    proof {
        assert(scored@.take(0) =~= Seq::<ScoredDoc>::empty());
    }
    while i < scored.len()
        invariant
            i <= scored@.len(),
            sorted_v@ == spec_sort_ranked(scored@.take(i as int)),
        decreases scored@.len() - i,
    {
        proof {
            assert(scored@.take(i + 1).drop_last() =~= scored@.take(i as int));
            assert(scored@.take(i + 1).last() == scored@[i as int]);
        }
        insert_ranked(&mut sorted_v, scored[i]);
        i = i + 1;
    }
    proof {
        assert(scored@.take(i as int) =~= scored@);
        lemma_sort_ranked_props(scored@);
    }
    let n = if k < sorted_v.len() {
        k
    } else {
        sorted_v.len()
    };
    let mut out: Vec<RankedResult> = Vec::new();
    let mut idx: usize = 0;
    while idx < n
        invariant
            idx <= n,
            n == (if k < sorted_v@.len() {
                k as int
            } else {
                sorted_v@.len() as int
            }),
            sorted_v@ == spec_sort_ranked(scored@),
            sorted_v@.len() == scored@.len(),
            out@.len() == idx,
            forall|m: int|
                0 <= m < idx ==> #[trigger] out@[m] == (RankedResult {
                    doc_id: spec_sort_ranked(scored@)[m].doc_id,
                    score_key: spec_sort_ranked(scored@)[m].score_key,
                    rank: m as usize,
                }),
        decreases n - idx,
    {
        out.push(
            RankedResult {
                doc_id: sorted_v[idx].doc_id,
                score_key: sorted_v[idx].score_key,
                rank: idx,
            },
        );
        idx = idx + 1;
    }
    proof {
        assert(out@ =~= spec_rank(scored@, k as nat));
    }
    out
}

/// Order-independence of ingestion: adding two distinct documents leaves the
/// same frequency-table model whichever goes first.
pub proof fn lemma_add_doc_commutes(
    m: Map<Seq<char>, Map<u32, u32>>,
    d1: u32,
    t1: Seq<Seq<char>>,
    d2: u32,
    t2: Seq<Seq<char>>,
)
    requires
        d1 != d2,
    ensures
        spec_add_doc(spec_add_doc(m, d1, t1), d2, t2) == spec_add_doc(
            spec_add_doc(m, d2, t2),
            d1,
            t1,
        ),
{
    let a = spec_add_doc(spec_add_doc(m, d1, t1), d2, t2);
    let b = spec_add_doc(spec_add_doc(m, d2, t2), d1, t1);
    assert forall|t: Seq<char>| a.dom().contains(t) <==> b.dom().contains(t) by {}
    assert forall|t: Seq<char>|
        a.dom().contains(t) && b.dom().contains(t) implies a[t] == b[t] by {
        let c1 = count_occ(t1, t);
        let c2 = count_occ(t2, t);
        let base = if m.contains_key(t) {
            m[t]
        } else {
            Map::<u32, u32>::empty()
        };
        if c1 > 0 && c2 > 0 {
            assert(a[t] == base.insert(d1, sat32(c1)).insert(d2, sat32(c2)));
            assert(b[t] == base.insert(d2, sat32(c2)).insert(d1, sat32(c1)));
            assert(base.insert(d1, sat32(c1)).insert(d2, sat32(c2)) =~= base.insert(
                d2,
                sat32(c2),
            ).insert(d1, sat32(c1)));
        } else if c1 > 0 {
            assert(a[t] == base.insert(d1, sat32(c1)));
            assert(b[t] == base.insert(d1, sat32(c1)));
        } else if c2 > 0 {
            assert(a[t] == base.insert(d2, sat32(c2)));
            assert(b[t] == base.insert(d2, sat32(c2)));
        } else {
            assert(a[t] == m[t] && b[t] == m[t]);
        }
    }
    assert(a =~= b);
}

/// Order-independence of the running total: the clamped sum of two added
/// document lengths does not depend on their order.
pub proof fn lemma_total_commutes(t: u64, a: u64, b: u64)
    ensures
        sat_add64(sat_add64(t, a), b) == sat_add64(sat_add64(t, b), a),
{
}

/// Order-independence of the metadata list: two pushes in either order leave
/// the same entries, as a multiset.
pub proof fn lemma_metas_commute(metas: Seq<DocMeta>, x: DocMeta, y: DocMeta)
    ensures
        metas.push(x).push(y).to_multiset() == metas.push(y).push(x).to_multiset(),
{
    broadcast use vstd::seq_lib::group_to_multiset_ensures;

    assert(metas.push(x).push(y).to_multiset() == metas.to_multiset().insert(x).insert(y));
    assert(metas.push(y).push(x).to_multiset() == metas.to_multiset().insert(y).insert(x));
    assert(metas.to_multiset().insert(x).insert(y) =~= metas.to_multiset().insert(y).insert(x));
}

/// A strictly ascending list is determined by the set of its elements; with
/// the `build` contract this pins each term's postings buffer from the model
/// alone, whatever order documents were added in.
pub proof fn lemma_sorted_strict_unique(a: Seq<u32>, b: Seq<u32>)
    requires
        sorted_strict(a),
        sorted_strict(b),
        forall|d: u32| #![auto] a.contains(d) <==> b.contains(d),
    ensures
        a == b,
    decreases a.len(),
{
    if a.len() == 0 {
        if b.len() > 0 {
            assert(b.contains(b[0]));
            assert(a.contains(b[0]));
            let j = choose|j: int| 0 <= j < a.len() && a[j] == b[0];
            assert(false);
        }
        assert(a =~= b);
    } else if b.len() == 0 {
        assert(a.contains(a[0]));
        assert(b.contains(a[0]));
        let j = choose|j: int| 0 <= j < b.len() && b[j] == a[0];
        assert(false);
    } else {
        // each head is its list's minimum, and the element sets agree
        assert(a.contains(a[0]));
        assert(b.contains(a[0]));
        let jb = choose|j: int| 0 <= j < b.len() && b[j] == a[0];
        assert(b[0] <= a[0]);
        assert(b.contains(b[0]));
        assert(a.contains(b[0]));
        let ja = choose|j: int| 0 <= j < a.len() && a[j] == b[0];
        assert(a[0] <= b[0]);
        assert(a[0] == b[0]);
        assert forall|d: u32| #![auto]
            a.drop_first().contains(d) <==> b.drop_first().contains(d) by {
            if a.drop_first().contains(d) {
                let j = choose|j: int| 0 <= j < a.drop_first().len() && a.drop_first()[j] == d;
                assert(a[j + 1] == d);
                assert(a.contains(d));
                assert(a[0] < d);
                let w = choose|w: int| 0 <= w < b.len() && b[w] == d;
                assert(w != 0);
                assert(b.drop_first()[w - 1] == d);
            }
            if b.drop_first().contains(d) {
                let j = choose|j: int| 0 <= j < b.drop_first().len() && b.drop_first()[j] == d;
                assert(b[j + 1] == d);
                assert(b.contains(d));
                assert(b[0] < d);
                let w = choose|w: int| 0 <= w < a.len() && a[w] == d;
                assert(w != 0);
                assert(a.drop_first()[w - 1] == d);
            }
        }
        assert(sorted_strict(a.drop_first()));
        assert(sorted_strict(b.drop_first()));
        lemma_sorted_strict_unique(a.drop_first(), b.drop_first());
        assert forall|i: int| 0 <= i < a.len() implies a[i] == b[i] by {
            if i >= 1 {
                assert(a[i] == a.drop_first()[i - 1]);
                assert(b[i] == b.drop_first()[i - 1]);
            }
        }
        assert(a =~= b);
    }
}

} // verus!
