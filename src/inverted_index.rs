use vstd::prelude::*;

use chashmap::CHashMap;

use crate::word_filtering::{
    distinct_words, empty_state, scan_for_unique_words, scan_runs, strings_view, tokens, word_mask,
    word_set,
};
use crate::word_stemming::{stem_of, stem_words, stems_of};

verus! {

broadcast use vstd::set::group_set_axioms, vstd::seq_lib::seq_to_set_is_finite;

#[verifier::external_type_specification]
#[verifier::external_body]
#[verifier::reject_recursive_types(K)]
#[verifier::reject_recursive_types(V)]
pub struct ExCHashMap<K, V>(CHashMap<K, V>);

/// What a table from stems to posting lists holds: for each stem present, its list of
/// document numbers.
pub uninterp spec fn posting_table(m: CHashMap<String, Vec<usize>>) -> Map<Seq<char>, Seq<usize>>;

/// Document numbers in strictly increasing order, hence each at most once.
pub open spec fn sorted_ids(p: Seq<usize>) -> bool {
    forall|i: int, j: int| 0 <= i < j < p.len() ==> p[i] < p[j]
}

/// `after` is the posting list `before` with `id` added.
pub open spec fn posting_added(before: Seq<usize>, after: Seq<usize>, id: usize) -> bool {
    &&& sorted_ids(after)
    &&& after.to_set() == before.to_set().insert(id)
}

/// Relies on `CHashMap::new`: a new map holds no entry.
#[verifier::external_body]
fn new_table() -> (m: CHashMap<String, Vec<usize>>)
    ensures
        posting_table(m).dom() == Set::<Seq<char>>::empty(),
{
    CHashMap::new()
}

/// Relies on `CHashMap::get`: the value stored under `key`, if there is one, copied out
/// of the read guard.
#[verifier::external_body]
fn table_get(m: &CHashMap<String, Vec<usize>>, key: &String) -> (r: Option<Vec<usize>>)
    ensures
        match r {
            Some(v) => posting_table(*m).dom().contains(key@) && v@ == posting_table(*m)[key@],
            None => !posting_table(*m).dom().contains(key@),
        },
{
    m.get(key).map(|g| (*g).clone())
}

/// Relies on `CHashMap::upsert`: when `key` is present its value is passed to the update
/// closure, here `add_posting`; otherwise the value made by the insert closure, here
/// `single_posting`, is stored under `key`. No other entry changes.
#[verifier::external_body]
fn table_add(m: &mut CHashMap<String, Vec<usize>>, key: String, id: usize)
    requires
        posting_table(*old(m)).dom().contains(key@) ==> sorted_ids(posting_table(*old(m))[key@]),
    ensures
        posting_table(*final(m)).dom() == posting_table(*old(m)).dom().insert(key@),
        forall|k: Seq<char>| (k != key@ && #[trigger] posting_table(*old(m)).dom().contains(k)
            ==> posting_table(*final(m))[k] == posting_table(*old(m))[k]),
        posting_table(*old(m)).dom().contains(key@) ==> (posting_added(posting_table(*old(m))[key@], posting_table(*final(m))[key@], id)),
        !posting_table(*old(m)).dom().contains(key@) ==> posting_table(*final(m))[key@] == seq![id],
{
    m.upsert(key, || single_posting(id), |p| add_posting(p, id))
}

/// A posting list that holds `id` alone.
pub fn single_posting(id: usize) -> (p: Vec<usize>)
    ensures
        p@ == seq![id],
{
    let mut p: Vec<usize> = Vec::new();
    p.push(id);
    p
}

/// Adds `id` to the posting list `p`, keeping it in increasing order.
pub fn add_posting(p: &mut Vec<usize>, id: usize)
    requires
        sorted_ids(old(p)@),
    ensures
        posting_added(old(p)@, final(p)@, id),
{
    let n = p.len();
    if n == 0 || p[n - 1] < id {
        let ghost before = p@;
        p.push(id);
        proof {
            assert(p@.to_set() =~= before.to_set().insert(id)) by {
                assert forall|x: usize| p@.contains(x) implies before.contains(x) || x == id by {
                    let k = choose|k: int| 0 <= k < p@.len() && p@[k] == x;
                    if k < before.len() {
                        assert(before[k] == x);
                    }
                }
                assert(p@[before.len() as int] == id);
                assert forall|x: usize| before.contains(x) implies p@.contains(x) by {
                    let k = choose|k: int| 0 <= k < before.len() && before[k] == x;
                    assert(p@[k] == x);
                }
            }
        }
        return;
    }
    let mut i: usize = 0;
    while i < n && p[i] < id
        invariant
            n == p@.len(),
            p@ == old(p)@,
            sorted_ids(p@),
            0 <= i <= n,
            forall|k: int| 0 <= k < i ==> p@[k] < id,
        decreases n - i,
    {
        i = i + 1;
    }
    if i < n && p[i] == id {
        proof {
            assert(p@.to_set() =~= p@.to_set().insert(id)) by {
                assert(p@[i as int] == id);
            }
        }
        return;
    }
    let ghost before = p@;
    p.insert(i, id);
    proof {
        assert forall|a: int, b: int| 0 <= a < b < p@.len() implies p@[a] < p@[b] by {
            if b < i {
            } else if a < i && b == i {
            } else if a < i {
                assert(p@[b] == before[b - 1]);
            } else if a == i {
                assert(p@[b] == before[b - 1]);
            } else {
                assert(p@[a] == before[a - 1]);
                assert(p@[b] == before[b - 1]);
            }
        }
        assert(p@.to_set() =~= before.to_set().insert(id)) by {
            assert forall|x: usize| p@.contains(x) implies before.contains(x) || x == id by {
                let k = choose|k: int| 0 <= k < p@.len() && p@[k] == x;
                if k < i {
                    assert(before[k] == x);
                } else if k > i {
                    assert(before[k - 1] == x);
                }
            }
            assert(p@[i as int] == id);
            assert forall|x: usize| before.contains(x) implies p@.contains(x) by {
                let k = choose|k: int| 0 <= k < before.len() && before[k] == x;
                if k < i {
                    assert(p@[k] == x);
                } else {
                    assert(p@[k + 1] == x);
                }
            }
        }
    }
}


/// The documents that hold stem `s` in the index `m`; none when `s` is absent.
pub open spec fn postings_of(m: Map<Seq<char>, Set<Seq<char>>>, s: Seq<char>) -> Set<Seq<char>> {
    if m.dom().contains(s) {
        m[s]
    } else {
        Set::empty()
    }
}

/// The index `m` after document `d` is recorded under each stem of `stems`.
pub open spec fn index_insert(m: Map<Seq<char>, Set<Seq<char>>>, d: Seq<char>, stems: Set<Seq<char>>) -> Map<Seq<char>, Set<Seq<char>>> {
    Map::new(
        |s: Seq<char>| m.dom().contains(s) || stems.contains(s),
        |s: Seq<char>| if stems.contains(s) { postings_of(m, s).insert(d) } else { m[s] },
    )
}

/// The rank of document `d` for the query stems `q`: how many of them it holds.
pub open spec fn rank(m: Map<Seq<char>, Set<Seq<char>>>, d: Seq<char>, q: Set<Seq<char>>) -> nat {
    q.filter(|s: Seq<char>| postings_of(m, s).contains(d)).len()
}

/// The stems a query string asks for.
pub open spec fn query_stems(q: Seq<char>) -> Set<Seq<char>> {
    stems_of(tokens(q))
}

/// An inverted index from word stems to the documents that hold them.
///
/// Each document name is stored once and known by its number; a table keyed by stem
/// holds, for each stem, the numbers of the documents that hold it.
pub struct InvertedIndex {
    documents: Vec<String>,
    hashmap: CHashMap<String, Vec<usize>>,
}

/// A document and its rank in the answer to a query.
pub struct QueryResult {
    pub document: String,
    pub rank: usize,
}

impl View for InvertedIndex {
    type V = Map<Seq<char>, Set<Seq<char>>>;

    /// For each stem present, the set of names of the documents that hold it.
    closed spec fn view(&self) -> Map<Seq<char>, Set<Seq<char>>> {
        let t = posting_table(self.hashmap);
        Map::new(
            |s: Seq<char>| t.dom().contains(s),
            |s: Seq<char>| t[s].to_set().map(|i: usize| self.documents@[i as int]@),
        )
    }
}

/// Whether the table `t` lists document `id` under stem `s`.
pub open spec fn hit(t: Map<Seq<char>, Seq<usize>>, s: Seq<char>, id: usize) -> bool {
    t.dom().contains(s) && t[s].contains(id)
}

/// How many stems of `stems` list document `id` in the table `t`.
pub open spec fn count_hits(t: Map<Seq<char>, Seq<usize>>, stems: Seq<Seq<char>>, id: usize) -> nat
    decreases stems.len(),
{
    if stems.len() == 0 {
        0
    } else {
        count_hits(t, stems.drop_last(), id) + if hit(t, stems.last(), id) {
            1nat
        } else {
            0nat
        }
    }
}

proof fn lemma_count_hits(t: Map<Seq<char>, Seq<usize>>, stems: Seq<Seq<char>>, id: usize)
    requires
        stems.no_duplicates(),
    ensures
        count_hits(t, stems, id) <= stems.len(),
        count_hits(t, stems, id) == stems.to_set().filter(|s: Seq<char>| hit(t, s, id)).len(),
    decreases stems.len(),
{
    let f = |s: Seq<char>| hit(t, s, id);
    if stems.len() == 0 {
        assert(stems.to_set().filter(f) =~= Set::<Seq<char>>::empty());
    } else {
        let prev = stems.drop_last();
        let x = stems.last();
        assert(prev.no_duplicates());
        lemma_count_hits(t, prev, id);
        assert(stems.to_set() =~= prev.to_set().insert(x)) by {
            assert(stems =~= prev.push(x));
            assert forall|y: Seq<char>| stems.contains(y) <==> prev.to_set().insert(x).contains(y) by {
                if stems.contains(y) {
                    let k = choose|k: int| 0 <= k < stems.len() && stems[k] == y;
                    if k < prev.len() {
                        assert(prev[k] == y);
                    }
                }
                if prev.contains(y) {
                    let k = choose|k: int| 0 <= k < prev.len() && prev[k] == y;
                    assert(stems[k] == y);
                }
                if y == x {
                    assert(stems[stems.len() - 1] == y);
                }
            }
        }
        assert(!prev.to_set().contains(x)) by {
            if prev.contains(x) {
                let k = choose|k: int| 0 <= k < prev.len() && prev[k] == x;
                assert(stems[k] == stems[stems.len() - 1]);
            }
        }
        if f(x) {
            assert(stems.to_set().filter(f) =~= prev.to_set().filter(f).insert(x));
        } else {
            assert(stems.to_set().filter(f) =~= prev.to_set().filter(f));
        }
    }
}

impl InvertedIndex {
    /// The rank of a document of the index, counted on its number.
    proof fn lemma_rank_by_number(&self, id: usize, q: Set<Seq<char>>)
        requires
            self.wf(),
            id < self.documents@.len(),
        ensures
            rank(self@, self.documents@[id as int]@, q) == q.filter(
                |s: Seq<char>| hit(posting_table(self.hashmap), s, id),
            ).len(),
    {
        let t = posting_table(self.hashmap);
        let docs = self.documents@;
        let d = docs[id as int]@;
        let f1 = |s: Seq<char>| postings_of(self@, s).contains(d);
        let f2 = |s: Seq<char>| hit(t, s, id);
        assert forall|s: Seq<char>| #[trigger] f1(s) <==> f2(s) by {
            if t.dom().contains(s) {
                let ids = t[s].to_set();
                assert(self@[s] == ids.map(|i: usize| docs[i as int]@));
                if f1(s) {
                    let i = choose|i: usize| ids.contains(i) && docs[i as int]@ == d;
                    let k = choose|k: int| 0 <= k < t[s].len() && t[s][k] == i;
                    assert(t[s][k] < docs.len());
                    if i != id {
                        assert(strings_view(docs)[i as int] == strings_view(docs)[id as int]);
                    }
                }
                if f2(s) {
                    assert(ids.contains(id));
                }
            }
        }
        assert(q.filter(f1) =~= q.filter(f2));
    }

    pub closed spec fn wf(&self) -> bool {
        let t = posting_table(self.hashmap);
        &&& distinct_words(self.documents@)
        &&& forall|s: Seq<char>| #[trigger] t.dom().contains(s) ==> {
            &&& sorted_ids(t[s])
            &&& forall|i: int| 0 <= i < t[s].len() ==> t[s][i] < self.documents@.len()
        }
    }

    pub fn new() -> (r: Self)
        ensures
            r.wf(),
            r@ == Map::<Seq<char>, Set<Seq<char>>>::empty(),
    {
        let r = InvertedIndex { documents: Vec::new(), hashmap: new_table() };
        proof {
            assert(strings_view(r.documents@) =~= Seq::<Seq<char>>::empty());
            assert(r@ =~= Map::<Seq<char>, Set<Seq<char>>>::empty());
        }
        r
    }

    /// The number of `document`, which is added to the index's documents if it is new.
    fn document_number(&mut self, document: String) -> (id: usize)
        requires
            old(self).wf(),
        ensures
            final(self).wf(),
            final(self)@ == old(self)@,
            id < final(self).documents@.len(),
            final(self).documents@[id as int]@ == document@,
            final(self).hashmap == old(self).hashmap,
    {
        let n = self.documents.len();
        let mut i: usize = 0;
        while i < n
            invariant
                n == self.documents@.len(),
                0 <= i <= n,
                *self == *old(self),
                self.wf(),
                forall|k: int| 0 <= k < i ==> self.documents@[k]@ != document@,
            decreases n - i,
        {
            if self.documents[i] == document {
                return i;
            }
            i = i + 1;
        }
        let ghost before = self.documents@;
        let ghost v_before = self@;
        self.documents.push(document);
        proof {
            assert(strings_view(self.documents@) =~= strings_view(before).push(self.documents@[n as int]@));
            assert(!strings_view(before).contains(self.documents@[n as int]@)) by {
                if strings_view(before).contains(self.documents@[n as int]@) {
                    let k = choose|k: int| 0 <= k < before.len() && strings_view(before)[k] == self.documents@[n as int]@;
                    assert(before[k]@ == document@);
                }
            }
            let t = posting_table(self.hashmap);
            let docs = self.documents@;
            assert forall|s: Seq<char>| #[trigger] t.dom().contains(s) implies t[s].to_set().map(|i: usize| docs[i as int]@)
                == t[s].to_set().map(|i: usize| before[i as int]@) by {
                let ids = t[s].to_set();
                let m_new = ids.map(|i: usize| docs[i as int]@);
                let m_old = ids.map(|i: usize| before[i as int]@);
                assert forall|x: Seq<char>| #[trigger] m_old.contains(x) implies m_new.contains(x) by {
                    let i = choose|i: usize| ids.contains(i) && before[i as int]@ == x;
                    let k = choose|k: int| 0 <= k < t[s].len() && t[s][k] == i;
                    assert(docs[i as int] == before[i as int]);
                }
                assert forall|x: Seq<char>| #[trigger] m_new.contains(x) implies m_old.contains(x) by {
                    let i = choose|i: usize| ids.contains(i) && docs[i as int]@ == x;
                    let k = choose|k: int| 0 <= k < t[s].len() && t[s][k] == i;
                    assert(docs[i as int] == before[i as int]);
                }
                assert(m_new =~= m_old);
            }
            assert(self@ =~= v_before);
        }
        n
    }

    /// Records `document` under the stem of each word of `words`.
    pub fn insert(&mut self, document: String, words: Vec<String>)
        requires
            old(self).wf(),
        ensures
            final(self).wf(),
            final(self)@ == index_insert(old(self)@, document@, stems_of(word_set(words@))),
    {
        let stems = stem_words(&words);
        self.insert_stems(document, stems);
    }

    /// Records `document` under each stem of `stems`, which are already normalized.
    pub fn insert_stems(&mut self, document: String, stems: Vec<String>)
        requires
            old(self).wf(),
        ensures
            final(self).wf(),
            final(self)@ == index_insert(old(self)@, document@, word_set(stems@)),
    {
        let ghost d = document@;
        let id = self.document_number(document);
        let ghost start = self@;
        let n = stems.len();
        let mut j: usize = 0;
        proof {
            assert(strings_view(stems@).take(0).to_set() =~= Set::<Seq<char>>::empty());
            assert(index_insert(start, d, Set::empty()) =~= start);
        }
        while j < n
            invariant
                n == stems@.len(),
                0 <= j <= n,
                self.wf(),
                id < self.documents@.len(),
                self.documents@[id as int]@ == d,
                self@ == index_insert(start, d, strings_view(stems@).take(j as int).to_set()),
            decreases n - j,
        {
            let ghost old_index = *self;
            let ghost t0 = posting_table(self.hashmap);
            let key = stems[j].clone();
            table_add(&mut self.hashmap, key, id);
            proof {
                let t1 = posting_table(self.hashmap);
                let k = stems@[j as int]@;
                let docs = self.documents@;
                assert forall|s: Seq<char>| #[trigger] t1.dom().contains(s) implies {
                    &&& sorted_ids(t1[s])
                    &&& forall|i: int| 0 <= i < t1[s].len() ==> t1[s][i] < docs.len()
                } by {
                    if s == k {
                        if t0.dom().contains(k) {
                            assert forall|i: int| 0 <= i < t1[s].len() implies t1[s][i] < docs.len() by {
                                assert(t1[s].to_set().contains(t1[s][i]));
                                if t1[s][i] != id {
                                    assert(t0[s].to_set().contains(t1[s][i]));
                                }
                            }
                        } else {
                            assert(t1[s] == seq![id]);
                        }
                    }
                }
                let prev = strings_view(stems@).take(j as int).to_set();
                assert(strings_view(stems@).take(j + 1).to_set() =~= prev.insert(k)) by {
                    assert(strings_view(stems@).take(j + 1) =~= strings_view(stems@).take(j as int).push(k));
                    let a = strings_view(stems@).take(j as int);
                    assert forall|x: Seq<char>| a.push(k).contains(x) <==> a.to_set().insert(k).contains(x) by {
                        if a.push(k).contains(x) {
                            let q = choose|q: int| 0 <= q < a.len() + 1 && a.push(k)[q] == x;
                            if q < a.len() {
                                assert(a[q] == x);
                            }
                        }
                        if a.contains(x) {
                            let q = choose|q: int| 0 <= q < a.len() && a[q] == x;
                            assert(a.push(k)[q] == x);
                        }
                        if x == k {
                            assert(a.push(k)[a.len() as int] == x);
                        }
                    }
                }
                let target = index_insert(start, d, prev.insert(k));
                assert(old_index@.dom() =~= t0.dom());
                assert(self@.dom() =~= t1.dom());
                assert(self@.dom() =~= target.dom());
                assert forall|s: Seq<char>| #[trigger] self@.dom().contains(s) implies self@[s] == target[s] by {
                    if s == k {
                        let mapped = t1[s].to_set().map(|i: usize| docs[i as int]@);
                        let expect = postings_of(old_index@, s).insert(d);
                        assert(old_index.documents@ == docs);
                        assert(mapped =~= expect) by {
                            if t0.dom().contains(s) {
                                let old_set = t0[s].to_set();
                                assert(t1[s].to_set() == old_set.insert(id));
                                assert(old_index@[s] == old_set.map(|i: usize| docs[i as int]@));
                                assert forall|x: Seq<char>| #[trigger] mapped.contains(x) implies expect.contains(x) by {
                                    let i = choose|i: usize| t1[s].to_set().contains(i) && docs[i as int]@ == x;
                                    if i != id {
                                        assert(old_set.contains(i));
                                    }
                                }
                                assert forall|x: Seq<char>| #[trigger] expect.contains(x) implies mapped.contains(x) by {
                                    if x == d {
                                        assert(t1[s].to_set().contains(id));
                                    } else {
                                        let i = choose|i: usize| old_set.contains(i) && docs[i as int]@ == x;
                                        assert(t1[s].to_set().contains(i));
                                    }
                                }
                            } else {
                                assert(t1[s].to_set() =~= set![id]) by {
                                    assert(t1[s][0] == id);
                                }
                                assert(expect =~= set![d]);
                                assert forall|x: Seq<char>| #[trigger] mapped.contains(x) implies expect.contains(x) by {
                                    let i = choose|i: usize| t1[s].to_set().contains(i) && docs[i as int]@ == x;
                                }
                                assert forall|x: Seq<char>| #[trigger] expect.contains(x) implies mapped.contains(x) by {
                                    assert(t1[s].to_set().contains(id));
                                }
                            }
                        }
                        assert(postings_of(index_insert(start, d, prev), s) == postings_of(old_index@, s));
                    } else {
                        assert(t0.dom().contains(s));
                        assert(t1[s] == t0[s]);
                        assert(old_index.documents@ == docs);
                        assert(self@[s] == old_index@[s]);
                        assert(old_index@.dom().contains(s));
                        assert(index_insert(start, d, prev)[s] == target[s]);
                    }
                }
                assert(self@ =~= target);
            }
            j = j + 1;
        }
        proof {
            assert(strings_view(stems@).take(n as int) =~= strings_view(stems@));
        }
    }
}


impl InvertedIndex {
    /// The documents that hold stems of the words of `query`, each with its rank: the
    /// number of distinct query stems it holds. Higher ranks come first.
    #[verifier::rlimit(50)]
    pub fn query(&self, query: &str) -> (r: Vec<QueryResult>)
        requires
            self.wf(),
        ensures
            forall|i: int| 0 <= i < r.len() ==> #[trigger] r[i].rank >= 1 && r[i].rank == rank(self@, r[i].document@, query_stems(query@)),
            forall|i: int, j: int| 0 <= i < j < r.len() ==> #[trigger] r[i].rank >= #[trigger] r[j].rank,
            forall|i: int, j: int| 0 <= i < j < r.len() ==> #[trigger] r[i].document@ != #[trigger] r[j].document@,
            forall|d: Seq<char>| #[trigger] rank(self@, d, query_stems(query@)) >= 1 ==> exists|i: int| 0 <= i < r.len() && #[trigger] r[i].document@ == d,
    {
        let q = Ghost(query_stems(query@));
        let words = match scan_for_unique_words(query) {
            Some(w) => w,
            None => {
                proof {
                    assert(tokens(query@) =~= Set::<Seq<char>>::empty()) by {
                        assert(query@ =~= Seq::<char>::empty());
                    }
                    assert(q@ =~= Set::<Seq<char>>::empty());
                    assert forall|d: Seq<char>| #[trigger] rank(self@, d, q@) == 0 by {
                        assert(q@.filter(|s: Seq<char>| postings_of(self@, s).contains(d)) =~= Set::<Seq<char>>::empty());
                    }
                }
                return Vec::new();
            },
        };
        let stems = stem_words(&words);
        let ghost sv = strings_view(stems@);
        let ghost t = posting_table(self.hashmap);
        let ghost docs = self.documents@;
        let ndocs = self.documents.len();
        let n = stems.len();
        let mut counts: Vec<usize> = Vec::new();
        let mut k: usize = 0;
        while k < ndocs
            invariant
                0 <= k <= ndocs,
                counts@.len() == k,
                forall|id: int| 0 <= id < k ==> counts@[id] == 0,
            decreases ndocs - k,
        {
            counts.push(0);
            k = k + 1;
        }
        let mut j: usize = 0;
        while j < n
            invariant
                n == stems@.len(),
                sv == strings_view(stems@),
                sv.no_duplicates(),
                ndocs == docs.len(),
                t == posting_table(self.hashmap),
                docs == self.documents@,
                self.wf(),
                0 <= j <= n,
                counts@.len() == ndocs,
                forall|id: int| 0 <= id < ndocs ==> #[trigger] counts@[id] == count_hits(t, sv.take(j as int), id as usize),
            decreases n - j,
        {
            proof {
                assert(sv.take(j as int).no_duplicates());
                assert forall|id: int| 0 <= id < ndocs implies #[trigger] counts@[id] <= j by {
                    lemma_count_hits(t, sv.take(j as int), id as usize);
                }
                assert(sv.take(j + 1).drop_last() =~= sv.take(j as int));
            }
            match table_get(&self.hashmap, &stems[j]) {
                Some(p) => {
                    let ghost base = counts@;
                    let m = p.len();
                    let mut i: usize = 0;
                    while i < m
                        invariant
                            m == p@.len(),
                            p@ == t[sv[j as int]],
                            t.dom().contains(sv[j as int]),
                            j < n,
                            sorted_ids(p@),
                            forall|x: int| 0 <= x < m ==> p@[x] < ndocs,
                            0 <= i <= m,
                            counts@.len() == ndocs,
                            base.len() == ndocs,
                            forall|id: int| 0 <= id < ndocs ==> base[id] <= j,
                            forall|id: int| 0 <= id < ndocs ==> #[trigger] counts@[id] == base[id] + if p@.take(i as int).contains(id as usize) {
                                1int
                            } else {
                                0int
                            },
                        decreases m - i,
                    {
                        let id = p[i];
                        proof {
                            assert(!p@.take(i as int).contains(id)) by {
                                let pt = p@.take(i as int);
                                if pt.contains(id) {
                                    let x = choose|x: int| 0 <= x < pt.len() && #[trigger] pt[x] == id;
                                    assert(p@[x] < p@[i as int]);
                                }
                            }
                            let pt = p@.take(i as int);
                            let pt1 = p@.take(i + 1);
                            assert forall|y: usize| #[trigger] pt1.contains(y) <==> (pt.contains(y) || y == id) by {
                                if pt1.contains(y) {
                                    let x = choose|x: int| 0 <= x < pt1.len() && #[trigger] pt1[x] == y;
                                    if x < i {
                                        assert(pt[x] == y);
                                    }
                                }
                                if pt.contains(y) {
                                    let x = choose|x: int| 0 <= x < pt.len() && #[trigger] pt[x] == y;
                                    assert(pt1[x] == y);
                                }
                                if y == id {
                                    assert(pt1[i as int] == y);
                                }
                            }
                        }
                        let c = counts[id];
                        counts.set(id, c + 1);
                        i = i + 1;
                    }
                    proof {
                        assert(p@.take(m as int) =~= p@);
                    }
                },
                None => {},
            }
            j = j + 1;
        }
        proof {
            assert(sv.take(n as int) =~= sv);
            assert(sv.to_set() == q@);
            assert forall|id: int| 0 <= id < ndocs implies #[trigger] counts@[id] <= n by {
                lemma_count_hits(t, sv, id as usize);
            }
        }
        let mut results: Vec<QueryResult> = Vec::new();
        let ghost mut ids: Seq<usize> = Seq::empty();
        let mut r: usize = n;
        while r > 0
            invariant
                0 <= r <= n,
                n == sv.len(),
                counts@.len() == ndocs,
                ndocs == docs.len(),
                docs == self.documents@,
                forall|id: int| 0 <= id < ndocs ==> #[trigger] counts@[id] <= n,
                results@.len() == ids.len(),
                ids.no_duplicates(),
                forall|i: int| 0 <= i < ids.len() ==> {
                    &&& #[trigger] ids[i] < ndocs
                    &&& results@[i].document@ == docs[ids[i] as int]@
                    &&& results@[i].rank == counts@[ids[i] as int]
                    &&& counts@[ids[i] as int] > r
                },
                forall|a: int, b: int| 0 <= a < b < results@.len() ==> #[trigger] results@[a].rank >= #[trigger] results@[b].rank,
                forall|id: int| 0 <= id < ndocs && #[trigger] counts@[id] > r ==> ids.contains(id as usize),
            decreases r,
        {
            let mut k: usize = 0;
            while k < ndocs
                invariant
                    0 < r <= n,
                    0 <= k <= ndocs,
                    counts@.len() == ndocs,
                    ndocs == docs.len(),
                    docs == self.documents@,
                    forall|id: int| 0 <= id < ndocs ==> #[trigger] counts@[id] <= n,
                    results@.len() == ids.len(),
                    ids.no_duplicates(),
                    forall|i: int| 0 <= i < ids.len() ==> {
                        &&& #[trigger] ids[i] < ndocs
                        &&& results@[i].document@ == docs[ids[i] as int]@
                        &&& results@[i].rank == counts@[ids[i] as int]
                        &&& counts@[ids[i] as int] >= r
                        &&& counts@[ids[i] as int] == r ==> ids[i] < k
                    },
                    forall|a: int, b: int| 0 <= a < b < results@.len() ==> #[trigger] results@[a].rank >= #[trigger] results@[b].rank,
                    forall|id: int| 0 <= id < ndocs && #[trigger] counts@[id] > r ==> ids.contains(id as usize),
                    forall|id: int| 0 <= id < k && #[trigger] counts@[id] == r ==> ids.contains(id as usize),
                decreases ndocs - k,
            {
                if counts[k] == r {
                    let document = self.documents[k].clone();
                    let ghost old_ids = ids;
                    proof {
                        assert(!ids.contains(k)) by {
                            if ids.contains(k) {
                                let x = choose|x: int| 0 <= x < ids.len() && ids[x] == k;
                            }
                        }
                        ids = ids.push(k);
                    }
                    results.push(QueryResult { document, rank: r });
                    proof {
                        assert forall|a: int, b: int| 0 <= a < b < results@.len() implies #[trigger] results@[a].rank >= #[trigger] results@[b].rank by {
                            if b == results@.len() - 1 {
                                assert(results@[a].rank == counts@[ids[a] as int]);
                            }
                        }
                        assert forall|id: int| 0 <= id < ndocs && #[trigger] counts@[id] > r implies ids.contains(id as usize) by {
                            assert(old_ids.contains(id as usize));
                            let x = choose|x: int| 0 <= x < old_ids.len() && old_ids[x] == id as usize;
                            assert(ids[x] == id);
                        }
                        assert forall|id: int| 0 <= id < k + 1 && #[trigger] counts@[id] == r implies ids.contains(id as usize) by {
                            if id < k {
                                assert(old_ids.contains(id as usize));
                                let x = choose|x: int| 0 <= x < old_ids.len() && old_ids[x] == id as usize;
                                assert(ids[x] == id);
                            } else {
                                assert(ids[ids.len() - 1] == id);
                            }
                        }
                    }
                }
                k = k + 1;
            }
            proof {
                assert forall|id: int| 0 <= id < ndocs && #[trigger] counts@[id] > r - 1 implies ids.contains(id as usize) by {
                    if counts@[id] == r {
                    } else {
                    }
                }
            }
            r = r - 1;
        }
        proof {
            assert forall|i: int| 0 <= i < results@.len() implies #[trigger] results@[i].rank >= 1 && results@[i].rank == rank(self@, results@[i].document@, q@) by {
                let id = ids[i];
                lemma_count_hits(t, sv, id);
                self.lemma_rank_by_number(id, q@);
            }
            assert forall|a: int, b: int| 0 <= a < b < results@.len() implies #[trigger] results@[a].document@ != #[trigger] results@[b].document@ by {
                assert(ids[a] != ids[b]);
                assert(strings_view(docs)[ids[a] as int] != strings_view(docs)[ids[b] as int]);
            }
            assert forall|d: Seq<char>| #[trigger] rank(self@, d, q@) >= 1 implies exists|i: int| 0 <= i < results@.len() && #[trigger] results@[i].document@ == d by {
                let f = |s: Seq<char>| postings_of(self@, s).contains(d);
                assert(q@.filter(f).len() > 0);
                assert(exists|s: Seq<char>| q@.filter(f).contains(s)) by {
                    if !(exists|s: Seq<char>| q@.filter(f).contains(s)) {
                        assert(q@.filter(f) =~= Set::<Seq<char>>::empty());
                    }
                }
                let s = choose|s: Seq<char>| q@.filter(f).contains(s);
                assert(f(s));
                assert(t.dom().contains(s));
                let ids_s = t[s].to_set();
                assert(self@[s] == ids_s.map(|i: usize| docs[i as int]@));
                let id = choose|id: usize| ids_s.contains(id) && docs[id as int]@ == d;
                let k = choose|k: int| 0 <= k < t[s].len() && t[s][k] == id;
                assert(id < ndocs);
                lemma_count_hits(t, sv, id);
                self.lemma_rank_by_number(id, q@);
                assert(counts@[id as int] >= 1);
                let x = choose|x: int| 0 <= x < ids.len() && ids[x] == id;
                assert(results@[x].document@ == d);
            }
        }
        results
    }
}


/// Recording a document under the same stems twice leaves the index as recording it once.
pub proof fn law_insert_idempotent(m: Map<Seq<char>, Set<Seq<char>>>, d: Seq<char>, stems: Set<Seq<char>>)
    ensures
        index_insert(index_insert(m, d, stems), d, stems) == index_insert(m, d, stems),
{
    let once = index_insert(m, d, stems);
    let twice = index_insert(once, d, stems);
    assert(twice.dom() =~= once.dom());
    assert forall|s: Seq<char>| #[trigger] twice.dom().contains(s) implies twice[s] == once[s] by {
        if stems.contains(s) {
            assert(postings_of(once, s) == postings_of(m, s).insert(d));
            assert(postings_of(m, s).insert(d).insert(d) =~= postings_of(m, s).insert(d));
        }
    }
    assert(twice =~= once);
}

/// Recording another document never changes the rank of a document for any query.
pub proof fn law_other_insert_keeps_rank(
    m: Map<Seq<char>, Set<Seq<char>>>,
    d: Seq<char>,
    e: Seq<char>,
    stems: Set<Seq<char>>,
    q: Set<Seq<char>>,
)
    requires
        d != e,
    ensures
        rank(index_insert(m, e, stems), d, q) == rank(m, d, q),
{
    let after = index_insert(m, e, stems);
    let f1 = |s: Seq<char>| postings_of(after, s).contains(d);
    let f2 = |s: Seq<char>| postings_of(m, s).contains(d);
    assert forall|s: Seq<char>| #[trigger] f1(s) <==> f2(s) by {
        if stems.contains(s) {
            assert(postings_of(after, s) == postings_of(m, s).insert(e));
        } else if m.dom().contains(s) {
            assert(postings_of(after, s) == postings_of(m, s));
        } else {
            assert(!after.dom().contains(s));
        }
    }
    assert(q.filter(f1) =~= q.filter(f2));
}

/// Documents recorded one after the other leave the same index in either order, so
/// that ingestion by any number of workers ends in the same index.
pub proof fn law_insert_order_irrelevant(
    m: Map<Seq<char>, Set<Seq<char>>>,
    d1: Seq<char>,
    s1: Set<Seq<char>>,
    d2: Seq<char>,
    s2: Set<Seq<char>>,
)
    ensures
        index_insert(index_insert(m, d1, s1), d2, s2) == index_insert(index_insert(m, d2, s2), d1, s1),
{
    let a = index_insert(index_insert(m, d1, s1), d2, s2);
    let b = index_insert(index_insert(m, d2, s2), d1, s1);
    assert(a.dom() =~= b.dom());
    assert forall|s: Seq<char>| #[trigger] a.dom().contains(s) implies a[s] == b[s] by {
        let p = postings_of(m, s);
        if s1.contains(s) && s2.contains(s) {
            assert(p.insert(d1).insert(d2) =~= p.insert(d2).insert(d1));
        }
    }
    assert(a =~= b);
}

/// The stems of a query are finitely many.
pub proof fn lemma_query_stems_finite(query: Seq<char>)
    ensures
        query_stems(query).finite(),
{
    let st = scan_runs(empty_state(), query, word_mask(query));
    assert(st.0.to_set().finite());
    assert(tokens(query).finite());
    tokens(query).lemma_map_finite(|w: Seq<char>| stem_of(w));
}

/// A document's rank never exceeds the number of distinct stems in the query.
pub proof fn law_rank_bound(m: Map<Seq<char>, Set<Seq<char>>>, d: Seq<char>, query: Seq<char>)
    ensures
        0 <= rank(m, d, query_stems(query)) <= query_stems(query).len(),
{
    let q = query_stems(query);
    lemma_query_stems_finite(query);
    vstd::set_lib::lemma_len_subset(q.filter(|s: Seq<char>| postings_of(m, s).contains(d)), q);
}

} // verus!
