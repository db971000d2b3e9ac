use vstd::prelude::*;

use vstd::bytes::{lemma_auto_spec_u64_to_from_le_bytes, spec_u64_to_le_bytes, u64_from_le_bytes};
use vstd::slice::slice_subrange;
use vstd::utf8::{decode_utf8, encode_utf8, valid_utf8};

use crate::codec::{
    encode, header_ok, lemma_encode_injective, lemma_encoded_parts, lemma_square_check,
    push_utf8, push_weights, utf8_str, vertex_bytes, weight_bytes_len, weights_bytes,
};
use crate::error::ChainError;
use crate::sample::{choose_from_top, has_positive, is_top, random_index, top_count, top_size};
use crate::graph::{lemma_cell_bounds, lemma_cell_unique, lemma_pos, GraphModel, WeightedGraph};

verus! {

/// The reserved vertex that marks the start and the end of a word.
pub const BOUNDARY: char = ' ';

/// Characters of `w` followed by the boundary.
pub open spec fn ended(w: Seq<char>) -> Seq<char> {
    w.push(BOUNDARY)
}

/// Transitions `a -> b` among the first `k` characters of `w`, where the last
/// character of `w` is followed by the boundary.
pub open spec fn word_count_upto(w: Seq<char>, a: char, b: char, k: int) -> nat
    decreases k,
{
    if k <= 0 {
        0
    } else {
        word_count_upto(w, a, b, k - 1) + if w[k - 1] == a && ended(w)[k] == b {
            1nat
        } else {
            0nat
        }
    }
}

/// Transitions `a -> b` in `w`, the final move into the boundary included.
pub open spec fn word_count(w: Seq<char>, a: char, b: char) -> nat {
    word_count_upto(w, a, b, w.len() as int)
}

/// Transitions `a -> b` over all words of a corpus.
pub open spec fn corpus_count(ws: Seq<Seq<char>>, a: char, b: char) -> nat
    decreases ws.len(),
{
    if ws.len() == 0 {
        0
    } else {
        corpus_count(ws.drop_last(), a, b) + word_count(ws.last(), a, b)
    }
}

/// Total number of characters in a corpus.
pub open spec fn total_len(ws: Seq<Seq<char>>) -> nat
    decreases ws.len(),
{
    if ws.len() == 0 {
        0
    } else {
        total_len(ws.drop_last()) + ws.last().len()
    }
}

/// Sum of a sequence of weights.
pub open spec fn sum(s: Seq<u64>) -> int
    decreases s.len(),
{
    if s.len() == 0 {
        0
    } else {
        sum(s.drop_last()) + s.last()
    }
}

/// The words of a corpus as character sequences.
pub open spec fn words_of(data: Seq<&str>) -> Seq<Seq<char>> {
    Seq::new(data.len(), |i: int| data[i]@)
}

/// A word that can be fitted: non-empty and free of the boundary.
pub open spec fn word_ok(w: Seq<char>) -> bool {
    w.len() > 0 && !w.contains(BOUNDARY)
}

/// Every word before index `i` can be fitted.
pub open spec fn words_ok_before(ws: Seq<Seq<char>>, i: int) -> bool {
    forall|k: int| 0 <= k < i ==> word_ok(#[trigger] ws[k])
}

/// `c` occurs in one of the first `i` words.
pub open spec fn occurs_before(ws: Seq<Seq<char>>, i: int, c: char) -> bool {
    exists|k: int, j: int| 0 <= k < i && 0 <= j < ws[k].len() && #[trigger] ws[k][j] == c
}

/// The vertex set of a corpus: its characters and the boundary.
pub open spec fn alphabet(ws: Seq<Seq<char>>) -> Set<char> {
    Set::new(|c: char| c == BOUNDARY || occurs_before(ws, ws.len() as int, c))
}

/// Strictly increasing by code point.
pub open spec fn strictly_sorted(v: Seq<char>) -> bool {
    forall|i: int, j: int| 0 <= i < j < v.len() ==> (v[i] as u32) < (v[j] as u32)
}

/// `g` is the chain fitted from `ws`: its vertices are the corpus alphabet in
/// code-point order and each weight counts its transition in the corpus.
pub open spec fn is_fit_of(g: GraphModel, ws: Seq<Seq<char>>) -> bool {
    &&& g.wf()
    &&& strictly_sorted(g.vertices)
    &&& forall|c: char| g.vertices.contains(c) <==> alphabet(ws).contains(c)
    &&& forall|p: int, q: int|
        0 <= p < g.n() && 0 <= q < g.n() ==> #[trigger] g.at(p, q) == corpus_count(
            ws,
            g.vertices[p],
            g.vertices[q],
        )
}

proof fn lemma_sum_incr(s: Seq<u64>, k: int)
    requires
        0 <= k < s.len(),
        s[k] < u64::MAX,
    ensures
        sum(s.update(k, (s[k] + 1) as u64)) == sum(s) + 1,
    decreases s.len(),
{
    let t = s.update(k, (s[k] + 1) as u64);
    if k == s.len() - 1 {
        assert(t.drop_last() =~= s.drop_last());
    } else {
        assert(t.drop_last() =~= s.drop_last().update(k, (s[k] + 1) as u64));
        lemma_sum_incr(s.drop_last(), k);
    }
}

pub proof fn lemma_sum_bounds(s: Seq<u64>, k: int)
    requires
        0 <= k < s.len(),
    ensures
        s[k] <= sum(s),
        sum(s) >= 0,
    decreases s.len(),
{
    lemma_sum_nonneg(s.drop_last());
    if k < s.len() - 1 {
        lemma_sum_bounds(s.drop_last(), k);
    }
}

proof fn lemma_sum_nonneg(s: Seq<u64>)
    ensures
        sum(s) >= 0,
    decreases s.len(),
{
    if s.len() > 0 {
        lemma_sum_nonneg(s.drop_last());
    }
}

proof fn lemma_sum_zeros(n: nat)
    ensures
        sum(Seq::new(n, |k: int| 0u64)) == 0,
    decreases n,
{
    if n > 0 {
        assert(Seq::new(n, |k: int| 0u64).drop_last() =~= Seq::new((n - 1) as nat, |k: int| 0u64));
        lemma_sum_zeros((n - 1) as nat);
    }
}

proof fn lemma_total_len_prefix(ws: Seq<Seq<char>>, i: int)
    requires
        0 <= i <= ws.len(),
    ensures
        total_len(ws.take(i)) <= total_len(ws),
    decreases ws.len(),
{
    if i < ws.len() {
        assert(ws.drop_last().take(i) =~= ws.take(i));
        lemma_total_len_prefix(ws.drop_last(), i);
    } else {
        assert(ws.take(i) =~= ws);
    }
}

/// A strictly sorted sequence is determined by its elements.
proof fn lemma_sorted_unique(s: Seq<char>, t: Seq<char>)
    requires
        strictly_sorted(s),
        strictly_sorted(t),
        forall|c: char| s.contains(c) <==> t.contains(c),
    ensures
        s == t,
    decreases s.len(),
{
    if s.len() == 0 {
        if t.len() > 0 {
            assert(t.contains(t[0]));
        }
        assert(s =~= t);
    } else {
        assert(s.contains(s[0]));
        let j = choose|j: int| 0 <= j < t.len() && t[j] == s[0];
        assert(t.contains(t[0]));
        let i = choose|i: int| 0 <= i < s.len() && s[i] == t[0];
        assert(s[0] == t[0]);
        let s2 = s.drop_first();
        let t2 = t.drop_first();
        assert forall|c: char| s2.contains(c) <==> t2.contains(c) by {
            if s2.contains(c) {
                let a = choose|a: int| 0 <= a < s2.len() && s2[a] == c;
                assert(s.contains(c) && s[a + 1] == c);
                let b = choose|b: int| 0 <= b < t.len() && t[b] == c;
                assert(b != 0);
                assert(t2[b - 1] == c);
            }
            if t2.contains(c) {
                let a = choose|a: int| 0 <= a < t2.len() && t2[a] == c;
                assert(t.contains(c) && t[a + 1] == c);
                let b = choose|b: int| 0 <= b < s.len() && s[b] == c;
                assert(b != 0);
                assert(s2[b - 1] == c);
            }
        }
        lemma_sorted_unique(s2, t2);
        assert(s =~= seq![s[0]] + s2);
        assert(t =~= seq![t[0]] + t2);
    }
}

proof fn lemma_sorted_no_dup(v: Seq<char>)
    requires
        strictly_sorted(v),
    ensures
        v.no_duplicates(),
{
    assert forall|i: int, j: int| 0 <= i < v.len() && 0 <= j < v.len() && i != j implies v[i]
        != v[j] by {
        if i < j {
            assert((v[i] as u32) < (v[j] as u32));
        } else {
            assert((v[j] as u32) < (v[i] as u32));
        }
    }
}

/// A vertex table a chain can be built on.
pub open spec fn vertices_ok(v: Seq<char>) -> bool {
    v.len() > 0 && v.no_duplicates() && v.contains(BOUNDARY)
}

/// Fitting is deterministic: any two graphs fitted from the same corpus have
/// the same vertices in the same order and the same weight matrix.
pub proof fn lemma_fit_deterministic(g1: GraphModel, g2: GraphModel, ws: Seq<Seq<char>>)
    requires
        is_fit_of(g1, ws),
        is_fit_of(g2, ws),
    ensures
        g1 == g2,
{
    lemma_sorted_unique(g1.vertices, g2.vertices);
    let n = g1.n() as int;
    assert forall|k: int| 0 <= k < g1.weights.len() implies g1.weights[k] == g2.weights[k] by {
        let p = k / n;
        let q = k % n;
        vstd::arithmetic::div_mod::lemma_fundamental_div_mod(k, n);
        assert(0 <= p < n && 0 <= q < n && k == p * n + q) by (nonlinear_arith)
            requires
                0 <= k < n * n,
                n > 0,
                k == n * (k / n) + (k % n),
                0 <= k % n < n,
                p == k / n,
                q == k % n,
        ;
        assert(g1.at(p, q) == g2.at(p, q));
    }
    assert(g1.weights =~= g2.weights);
}

/// Whether `v` repeats no character.
fn distinct(v: &Vec<char>) -> (r: bool)
    ensures
        r == v@.no_duplicates(),
{
    let mut i: usize = 0;
    while i < v.len()
        invariant
            0 <= i <= v@.len(),
            forall|a: int, b: int| 0 <= a < i && 0 <= b < v@.len() && a != b ==> v@[a] != v@[b],
        decreases v@.len() - i,
    {
        let mut j: usize = 0;
        while j < v.len()
            invariant
                0 <= i < v@.len(),
                0 <= j <= v@.len(),
                forall|a: int, b: int|
                    0 <= a < i && 0 <= b < v@.len() && a != b ==> v@[a] != v@[b],
                forall|b: int| 0 <= b < j && b != i ==> v@[i as int] != v@[b],
            decreases v@.len() - j,
        {
            if j != i && v[i] == v[j] {
                return false;
            }
            j += 1;
        }
        i += 1;
    }
    true
}

/// Characters a generated word may not start with.
pub open spec fn cannot_start(c: char) -> bool {
    c == '\'' || c == '-' || c == BOUNDARY
}

/// Longest word that generation produces.
pub const MAX_WORD_LEN: usize = 256;

/// Random draws for a start character before falling back to a scan.
pub const START_DRAWS: usize = 64;

/// In `g`, `b` may follow `a`: the index of `b` is among the heaviest
/// `top_size` entries of the row of `a`, and its weight is positive unless
/// that whole row is zero.
pub open spec fn can_follow(g: GraphModel, a: char, b: char) -> bool {
    &&& exists|top: Seq<usize>|
        is_top(g.row(g.pos(a)), top_size(g.n() as int), top) && #[trigger] top.contains(
            g.pos(b) as usize,
        )
    &&& has_positive(g.row(g.pos(a))) ==> g.weight(a, b) > 0
}

fn is_forbidden_start(c: char) -> (r: bool)
    ensures
        r == cannot_start(c),
{
    c == '\'' || c == '-' || c == BOUNDARY
}

/// Index of a vertex a word may start with: drawn uniformly, retried a
/// bounded number of times, then the first such vertex.
fn pick_start(vertices: &Vec<char>) -> (r: Option<usize>)
    ensures
        r matches Some(i) ==> i < vertices@.len() && !cannot_start(vertices@[i as int]),
        r is None ==> forall|i: int| 0 <= i < vertices@.len() ==> cannot_start(vertices@[i]),
{
    let n = vertices.len();
    let mut attempt: usize = 0;
    while attempt < START_DRAWS
        invariant
            n == vertices@.len(),
        decreases START_DRAWS - attempt,
    {
        match random_index(n) {
            Some(i) => {
                if !is_forbidden_start(vertices[i]) {
                    return Some(i);
                }
            },
            None => {},
        }
        attempt += 1;
    }
    let mut i: usize = 0;
    while i < n
        invariant
            n == vertices@.len(),
            0 <= i <= n,
            forall|j: int| 0 <= j < i ==> cannot_start(vertices@[j]),
        decreases n - i,
    {
        if !is_forbidden_start(vertices[i]) {
            return Some(i);
        }
        i += 1;
    }
    None
}

/// Relies on `String`'s `FromIterator<&char>`: the string holds the characters in order.
#[verifier::external_body]
fn string_of(chars: &Vec<char>) -> (r: String)
    ensures
        r@ == chars@,
{
    chars.iter().collect()
}

/// Relies on `str::chars`, collected: the characters of `s` in order.
#[verifier::external_body]
fn chars_of(s: &str) -> (r: Vec<char>)
    ensures
        r@ == s@,
{
    s.chars().collect()
}

/// Whether `w` holds `c`.
fn holds(w: &Vec<char>, c: char) -> (r: bool)
    ensures
        r == w@.contains(c),
{
    let mut i: usize = 0;
    while i < w.len()
        invariant
            0 <= i <= w@.len(),
            forall|k: int| 0 <= k < i ==> w@[k] != c,
        decreases w@.len() - i,
    {
        if w[i] == c {
            assert(w@[i as int] == c);
            return true;
        }
        i += 1;
    }
    false
}

/// Adds `c` to the strictly sorted `v`, unless it is there already.
fn insert_sorted(v: &mut Vec<char>, c: char)
    requires
        strictly_sorted(old(v)@),
    ensures
        strictly_sorted(final(v)@),
        forall|x: char| final(v)@.contains(x) <==> (old(v)@.contains(x) || x == c),
{
    let mut p: usize = 0;
    while p < v.len() && (v[p] as u32) < (c as u32)
        invariant
            0 <= p <= v@.len(),
            v@ == old(v)@,
            forall|k: int| 0 <= k < p ==> (v@[k] as u32) < (c as u32),
        decreases v@.len() - p,
    {
        p += 1;
    }
    if p < v.len() && v[p] == c {
        assert(v@[p as int] == c);
        return;
    }
    let ghost old_v = v@;
    assert(old_v == old(v)@);
    proof {
        if p < old_v.len() {
            assert((old_v[p as int] as u32) != (c as u32)) by {
                vstd::utf8::char_u32_cast(c, c as u32);
                vstd::utf8::char_u32_cast(old_v[p as int], old_v[p as int] as u32);
            }
        }
    }
    v.insert(p, c);
    assert(v@ =~= old_v.insert(p as int, c));
    assert forall|x: char| v@.contains(x) <==> (old_v.contains(x) || x == c) by {
        if v@.contains(x) {
            let a = choose|a: int| 0 <= a < v@.len() && v@[a] == x;
            if a < p {
                assert(old_v[a] == x);
            } else if a > p {
                assert(old_v[a - 1] == x);
            }
        }
        if old_v.contains(x) {
            let a = choose|a: int| 0 <= a < old_v.len() && old_v[a] == x;
            if a < p {
                assert(v@[a] == x);
            } else {
                assert(v@[a + 1] == x);
            }
        }
        if x == c {
            assert(v@[p as int] == x);
        }
    }
}

/// A character-level first-order Markov chain over a fixed alphabet that
/// always holds the boundary.
pub struct TextMarkovChain {
    graph: WeightedGraph,
}

impl View for TextMarkovChain {
    type V = GraphModel;

    closed spec fn view(&self) -> GraphModel {
        self.graph@
    }
}

impl TextMarkovChain {
    /// Well-formed graph whose vertices include the boundary.
    pub open spec fn wf(&self) -> bool {
        self@.wf() && self@.has(BOUNDARY)
    }

    /// A chain over `symbols`, in that order, with every count zero.
    pub fn new(symbols: &[char]) -> (r: Self)
        requires
            symbols@.contains(BOUNDARY),
            symbols@.no_duplicates(),
            symbols@.len() * symbols@.len() <= usize::MAX,
        ensures
            r.wf(),
            r@.vertices == symbols@,
            r@.weights == Seq::new(symbols@.len() * symbols@.len(), |k: int| 0u64),
    {
        TextMarkovChain { graph: WeightedGraph::from_vertices(symbols) }
    }

    /// Fits a chain to the words of `data`: the vertices are the distinct
    /// characters of the corpus and the boundary, in code-point order, and
    /// each weight counts how often its transition occurs, the move from the
    /// last character of each word into the boundary included.
    ///
    /// Words are checked in order; the first empty word, or word holding the
    /// boundary, is reported by its index.
    pub fn fit(data: &[&str]) -> (r: Result<Self, ChainError>)
        requires
            total_len(words_of(data@)) <= u64::MAX,
        ensures
            ({
                let ws = words_of(data@);
                &&& r is Ok <==> (ws.len() > 0 && words_ok_before(ws, ws.len() as int)
                    && alphabet(ws).len() * alphabet(ws).len() <= usize::MAX)
                &&& r is Ok ==> r->Ok_0.wf() && is_fit_of(r->Ok_0@, ws) && sum(r->Ok_0@.weights)
                    == total_len(ws)
                &&& (r == Err::<Self, ChainError>(ChainError::EmptyCorpus)) <==> ws.len() == 0
                &&& forall|i: usize|
                    (r == Err::<Self, ChainError>(ChainError::EmptyWord { index: i })) <==> (i
                        < ws.len() && words_ok_before(ws, i as int) && ws[i as int].len() == 0)
                &&& forall|i: usize|
                    (r == Err::<Self, ChainError>(ChainError::BoundaryInWord { index: i })) <==> (
                    i < ws.len() && words_ok_before(ws, i as int) && ws[i as int].len() > 0
                        && ws[i as int].contains(BOUNDARY))
                &&& (r == Err::<Self, ChainError>(ChainError::AlphabetTooLarge)) <==> (ws.len() > 0
                    && words_ok_before(ws, ws.len() as int) && alphabet(ws).len() * alphabet(
                    ws,
                ).len() > usize::MAX)
            }),
    {
        let ghost ws = words_of(data@);
        if data.len() == 0 {
            return Err(ChainError::EmptyCorpus);
        }
        let mut words: Vec<Vec<char>> = Vec::new();
        let mut alpha: Vec<char> = vec![BOUNDARY];
        let mut i: usize = 0;
        while i < data.len()
            invariant
                ws == words_of(data@),
                ws.len() == data@.len(),
                ws.len() > 0,
                0 <= i <= ws.len(),
                words@.len() == i,
                forall|k: int| 0 <= k < i ==> (#[trigger] words@[k])@ == ws[k],
                words_ok_before(ws, i as int),
                strictly_sorted(alpha@),
                forall|c: char| alpha@.contains(c) <==> (c == BOUNDARY || occurs_before(ws, i as int, c)),
            decreases ws.len() - i,
        {
            let w = chars_of(data[i]);
            assert(w@ == ws[i as int]);
            if w.len() == 0 {
                return Err(ChainError::EmptyWord { index: i });
            }
            if holds(&w, BOUNDARY) {
                return Err(ChainError::BoundaryInWord { index: i });
            }
            let mut j: usize = 0;
            while j < w.len()
                invariant
                    ws == words_of(data@),
                    0 <= i < ws.len(),
                    w@ == ws[i as int],
                    0 <= j <= w@.len(),
                    strictly_sorted(alpha@),
                    forall|c: char|
                        alpha@.contains(c) <==> (c == BOUNDARY || occurs_before(ws, i as int, c)
                            || exists|jj: int| 0 <= jj < j && w@[jj] == c),
                decreases w@.len() - j,
            {
                insert_sorted(&mut alpha, w[j]);
                assert forall|c: char|
                    alpha@.contains(c) <==> (c == BOUNDARY || occurs_before(ws, i as int, c)
                        || exists|jj: int| 0 <= jj < j + 1 && w@[jj] == c) by {
                    if c == w@[j as int] {
                        assert(0 <= j < j + 1 && w@[j as int] == c);
                    }
                }
                j += 1;
            }
            assert forall|c: char|
                alpha@.contains(c) <==> (c == BOUNDARY || occurs_before(ws, i + 1, c)) by {
                if occurs_before(ws, i + 1, c) && !occurs_before(ws, i as int, c) {
                    let (k, jj) = choose|k: int, jj: int|
                        0 <= k < i + 1 && 0 <= jj < ws[k].len() && #[trigger] ws[k][jj] == c;
                    assert(k == i);
                    assert(w@[jj] == c);
                }
                if exists|jj: int| 0 <= jj < w@.len() && w@[jj] == c {
                    let jj = choose|jj: int| 0 <= jj < w@.len() && w@[jj] == c;
                    assert(ws[i as int][jj] == c);
                }
                if occurs_before(ws, i as int, c) {
                    let (k, jj) = choose|k: int, jj: int|
                        0 <= k < i && 0 <= jj < ws[k].len() && #[trigger] ws[k][jj] == c;
                    assert(ws[k][jj] == c);
                }
            }
            words.push(w);
            i += 1;
        }
        proof {
            assert(alphabet(ws) =~= alpha@.to_set());
            lemma_sorted_no_dup(alpha@);
            alpha@.unique_seq_to_set();
        }
        let n = alpha.len();
        if n.checked_mul(n).is_none() {
            return Err(ChainError::AlphabetTooLarge);
        }
        proof {
            assert(alpha@.contains(BOUNDARY));
        }
        let mut mc = TextMarkovChain::new(alpha.as_slice());
        proof {
            lemma_sum_zeros(n as nat * n as nat);
            assert(ws.take(0) =~= Seq::<Seq<char>>::empty());
            assert forall|p: int, q: int| 0 <= p < n && 0 <= q < n implies #[trigger] mc@.at(p, q)
                == corpus_count(ws.take(0), alpha@[p], alpha@[q]) by {
                lemma_cell_bounds(n as int, p, q);
            }
        }
        let mut i: usize = 0;
        while i < words.len()
            invariant
                ws.len() == words@.len(),
                forall|k: int| 0 <= k < ws.len() ==> (#[trigger] words@[k])@ == ws[k],
                words_ok_before(ws, ws.len() as int),
                total_len(ws) <= u64::MAX,
                0 <= i <= ws.len(),
                mc.wf(),
                mc@.vertices == alpha@,
                strictly_sorted(alpha@),
                forall|c: char| alpha@.contains(c) <==> alphabet(ws).contains(c),
                forall|p: int, q: int|
                    0 <= p < n && 0 <= q < n ==> #[trigger] mc@.at(p, q) == corpus_count(
                        ws.take(i as int),
                        alpha@[p],
                        alpha@[q],
                    ),
                sum(mc@.weights) == total_len(ws.take(i as int)),
                n == alpha@.len(),
            decreases ws.len() - i,
        {
            let w = &words[i];
            let ghost wv = ws[i as int];
            assert(w@ == wv);
            proof {
                lemma_total_len_prefix(ws, i + 1);
                assert(ws.take(i + 1).drop_last() =~= ws.take(i as int));
            }
            let mut j: usize = 0;
            while j < w.len()
                invariant
                    w@ == wv,
                    wv == ws[i as int],
                    0 <= i < ws.len(),
                    ws.len() == words@.len(),
                    words_ok_before(ws, ws.len() as int),
                    0 <= j <= wv.len(),
                    mc.wf(),
                    mc@.vertices == alpha@,
                    n == alpha@.len(),
                    forall|c: char| alpha@.contains(c) <==> alphabet(ws).contains(c),
                    forall|p: int, q: int|
                        0 <= p < n && 0 <= q < n ==> #[trigger] mc@.at(p, q) == corpus_count(
                            ws.take(i as int),
                            alpha@[p],
                            alpha@[q],
                        ) + word_count_upto(wv, alpha@[p], alpha@[q], j as int),
                    sum(mc@.weights) == total_len(ws.take(i as int)) + j,
                    total_len(ws.take(i + 1)) <= total_len(ws),
                    total_len(ws) <= u64::MAX,
                    total_len(ws.take(i + 1)) == total_len(ws.take(i as int)) + wv.len(),
                decreases wv.len() - j,
            {
                let from = w[j];
                let to = if j + 1 < w.len() {
                    w[j + 1]
                } else {
                    BOUNDARY
                };
                let ghost g0 = mc@;
                proof {
                    assert(ended(wv)[j + 1] == to);
                    assert(ws[i as int][j as int] == from);
                    assert(alphabet(ws).contains(from));
                    if to != BOUNDARY {
                        assert(ws[i as int][j + 1] == to);
                    }
                    assert(alphabet(ws).contains(to));
                    let pa = g0.pos(from);
                    let pb = g0.pos(to);
                    assert(g0.has(from));
                    assert(g0.has(to));
                    lemma_cell_bounds(n as int, pa, pb);
                    lemma_sum_bounds(g0.weights, g0.cell(from, to));
                }
                mc.graph.incr(&from, &to);
                proof {
                    let pa = g0.pos(from);
                    let pb = g0.pos(to);
                    lemma_sum_incr(g0.weights, g0.cell(from, to));
                    assert forall|p: int, q: int| 0 <= p < n && 0 <= q < n implies #[trigger] mc@.at(
                        p,
                        q,
                    ) == corpus_count(ws.take(i as int), alpha@[p], alpha@[q]) + word_count_upto(
                        wv,
                        alpha@[p],
                        alpha@[q],
                        j + 1,
                    ) by {
                        lemma_cell_bounds(n as int, p, q);
                        assert(g0.at(p, q) == corpus_count(ws.take(i as int), alpha@[p], alpha@[q])
                            + word_count_upto(wv, alpha@[p], alpha@[q], j as int));
                        if p * n + q == pa * n + pb {
                            lemma_cell_unique(n as int, p, q, pa, pb);
                        } else {
                            if alpha@[p] == from && alpha@[q] == to {
                                assert(alpha@.no_duplicates());
                                assert(p == pa);
                                assert(q == pb);
                            }
                        }
                    }
                }
                j += 1;
            }
            proof {
                assert(ws.take(i + 1).last() == wv);
            }
            i += 1;
        }
        proof {
            assert(ws.take(ws.len() as int) =~= ws);
        }
        Ok(mc)
    }

    /// The serialized form of the chain: see [`encode`].
    pub fn to_bytes(&self) -> (r: Vec<u8>)
        requires
            self.wf(),
        ensures
            r@ == encode(self@),
    {
        let vertices = self.graph.get_vertices();
        let mut vb: Vec<u8> = Vec::new();
        push_utf8(&mut vb, vertices.as_slice());
        let mut out = vstd::bytes::u64_to_le_bytes(vb.len() as u64);
        out.append(&mut vb);
        push_weights(&mut out, self.graph.get_all_weights().as_slice());
        out
    }

    fn parse(b: &[u8]) -> (r: Result<Self, ChainError>)
        ensures
            !header_ok(b@) ==> r == Err::<Self, ChainError>(ChainError::SizeMismatch),
            header_ok(b@) && !valid_utf8(vertex_bytes(b@)) ==> r == Err::<Self, ChainError>(
                ChainError::InvalidUtf8,
            ),
            header_ok(b@) && valid_utf8(vertex_bytes(b@)) ==> ({
                let v = decode_utf8(vertex_bytes(b@));
                if !vertices_ok(v) {
                    r == Err::<Self, ChainError>(ChainError::InvalidVertices)
                } else if weight_bytes_len(b@) != 8 * (v.len() * v.len()) {
                    r == Err::<Self, ChainError>(ChainError::SizeMismatch)
                } else {
                    r is Ok && r->Ok_0.wf() && r->Ok_0@.vertices == v && encode(r->Ok_0@) == b@
                }
            }),
    {
        if b.len() < 8 {
            return Err(ChainError::SizeMismatch);
        }
        let l = u64_from_le_bytes(slice_subrange(b, 0, 8));
        if l > (b.len() - 8) as u64 {
            return Err(ChainError::SizeMismatch);
        }
        let l = l as usize;
        let vb = slice_subrange(b, 8, 8 + l);
        let s = match utf8_str(vb) {
            Some(s) => s,
            None => {
                return Err(ChainError::InvalidUtf8);
            },
        };
        let vertices = chars_of(s);
        proof {
            vstd::utf8::encode_utf8_decode_utf8(s@);
        }
        if vertices.len() == 0 || !distinct(&vertices) || !holds(&vertices, BOUNDARY) {
            return Err(ChainError::InvalidVertices);
        }
        let n = vertices.len();
        let rest = b.len() - 8 - l;
        let m = rest / 8;
        proof {
            lemma_square_check(m as int, n as int);
            vstd::arithmetic::div_mod::lemma_fundamental_div_mod(rest as int, 8);
        }
        if rest % 8 != 0 || m % n != 0 || m / n != n {
            return Err(ChainError::SizeMismatch);
        }
        assert(m == n * n);
        let start = 8 + l;
        let mut weights: Vec<u64> = Vec::new();
        let mut k: usize = 0;
        proof {
            lemma_auto_spec_u64_to_from_le_bytes();
        }
        while k < m
            invariant
                0 <= k <= m,
                rest == 8 * m,
                start + rest == b@.len(),
                b@.len() <= usize::MAX,
                weights@.len() == k,
                weights_bytes(weights@) == b@.subrange(start as int, start + 8 * k),
                forall|s: Seq<u8>|
                    #![trigger spec_u64_to_le_bytes(vstd::bytes::spec_u64_from_le_bytes(s))]
                    s.len() == 8 ==> spec_u64_to_le_bytes(vstd::bytes::spec_u64_from_le_bytes(s))
                        == s,
            decreases m - k,
        {
            let off = start + 8 * k;
            let chunk = slice_subrange(b, off, off + 8);
            let w = u64_from_le_bytes(chunk);
            let ghost prev = weights@;
            weights.push(w);
            proof {
                assert(weights@.drop_last() =~= prev);
                assert(weights@.last() == w);
                assert(weights_bytes(weights@) == weights_bytes(prev) + spec_u64_to_le_bytes(w));
                assert(spec_u64_to_le_bytes(w) == chunk@);
                assert(b@.subrange(start as int, off + 8) =~= b@.subrange(start as int, off as int)
                    + chunk@);
            }
            k += 1;
        }
        let mut graph = WeightedGraph::from_vertices(vertices.as_slice());
        graph.set_all_weights(weights);
        let r = TextMarkovChain { graph };
        proof {
            lemma_auto_spec_u64_to_from_le_bytes();
            assert(b@.subrange(start as int, start + 8 * m) =~= b@.subrange(start as int, b@.len() as int));
            let e = encode_utf8(vertices@);
            assert(b@.subrange(0, 8) =~= spec_u64_to_le_bytes(l as u64));
            assert(e.len() == l);
            assert(b@ =~= b@.subrange(0, 8) + vb@ + b@.subrange(start as int, start + 8 * m));
        }
        Ok(r)
    }

    /// Restores a chain from its serialized form. Checks, in order: the
    /// header fits in `b`, the vertex string is UTF-8, the vertex table is
    /// non-empty, repeats no character and holds the boundary, and the rest
    /// is exactly one `u64` per vertex pair.
    ///
    /// Decoding a chain's own serialization gives it back, and the same
    /// bytes less the last one are refused.
    pub fn from_bytes(b: &[u8]) -> (r: Result<Self, ChainError>)
        ensures
            !header_ok(b@) ==> r == Err::<Self, ChainError>(ChainError::SizeMismatch),
            header_ok(b@) && !valid_utf8(vertex_bytes(b@)) ==> r == Err::<Self, ChainError>(
                ChainError::InvalidUtf8,
            ),
            header_ok(b@) && valid_utf8(vertex_bytes(b@)) ==> ({
                let v = decode_utf8(vertex_bytes(b@));
                if !vertices_ok(v) {
                    r == Err::<Self, ChainError>(ChainError::InvalidVertices)
                } else if weight_bytes_len(b@) != 8 * (v.len() * v.len()) {
                    r == Err::<Self, ChainError>(ChainError::SizeMismatch)
                } else {
                    r is Ok && r->Ok_0.wf() && r->Ok_0@.vertices == v && encode(r->Ok_0@) == b@
                }
            }),
            forall|g: GraphModel|
                g.wf() && g.has(BOUNDARY) && #[trigger] encode(g) == b@ ==> r is Ok && r->Ok_0@
                    == g,
            forall|g: GraphModel|
                g.wf() && g.has(BOUNDARY) && b@ == #[trigger] encode(g).drop_last() ==> r is Err,
    {
        let r = Self::parse(b);
        let len = b.len();
        proof {
            assert(b@.len() <= u64::MAX);
            assert forall|g: GraphModel|
                g.wf() && g.has(BOUNDARY) && #[trigger] encode(g) == b@ implies r is Ok && r->Ok_0@
                == g by {
                lemma_encoded_parts(g);
                vstd::utf8::encode_utf8_valid_utf8(g.vertices);
                vstd::utf8::encode_utf8_decode_utf8(g.vertices);
                lemma_encode_injective(r->Ok_0@, g);
            }
            assert forall|g: GraphModel|
                g.wf() && g.has(BOUNDARY) && b@ == #[trigger] encode(g).drop_last() implies r is Err by {
                lemma_encoded_parts(g);
                vstd::utf8::encode_utf8_valid_utf8(g.vertices);
                vstd::utf8::encode_utf8_decode_utf8(g.vertices);
            }
        }
        r
    }

    /// Generates a word. The first character is drawn uniformly among the
    /// vertices that may start a word; each next one is drawn with
    /// [`choose_from_top`] from the row of the current one, and drawing the
    /// boundary ends the word. Words stop at `MAX_WORD_LEN` characters, and
    /// the word is empty when no vertex may start one.
    pub fn gen(&self) -> (r: String)
        requires
            self.wf(),
        ensures
            r@.len() <= MAX_WORD_LEN,
            forall|i: int| 0 <= i < r@.len() ==> self@.has(#[trigger] r@[i]) && r@[i] != BOUNDARY,
            r@.len() > 0 ==> !cannot_start(r@[0]),
            r@.len() > 0 <==> exists|c: char| self@.has(c) && !cannot_start(c),
            forall|i: int| 0 <= i < r@.len() - 1 ==> can_follow(self@, #[trigger] r@[i], r@[i + 1]),
            0 < r@.len() < MAX_WORD_LEN ==> can_follow(self@, r@.last(), BOUNDARY),
    {
        let ghost g = self@;
        let vertices = self.graph.get_vertices();
        let n = vertices.len();
        let start = match pick_start(&vertices) {
            Some(i) => i,
            None => {
                let r = String::new();
                assert forall|c: char| self@.has(c) implies cannot_start(c) by {
                    let j = choose|j: int| 0 <= j < n && vertices@[j] == c;
                }
                return r;
            },
        };
        let total = self.graph.get_all_weights().len();
        let k = top_count(n);
        let mut word: Vec<char> = Vec::new();
        word.push(vertices[start]);
        let mut cur = start;
        proof {
            assert(g.has(vertices@[start as int]));
        }
        while word.len() < MAX_WORD_LEN
            invariant
                g == self@,
                g.wf(),
                vertices@ == g.vertices,
                n == g.n(),
                k == top_size(n as int),
                1 <= k <= n,
                1 <= word@.len() <= MAX_WORD_LEN,
                cur < n,
                vertices@[cur as int] == word@.last(),
                !cannot_start(word@[0]),
                forall|i: int| 0 <= i < word@.len() ==> g.has(#[trigger] word@[i]) && word@[i] != BOUNDARY,
                forall|i: int| 0 <= i < word@.len() - 1 ==> can_follow(g, #[trigger] word@[i], word@[i + 1]),
            ensures
                1 <= word@.len() <= MAX_WORD_LEN,
                !cannot_start(word@[0]),
                forall|i: int| 0 <= i < word@.len() ==> g.has(#[trigger] word@[i]) && word@[i] != BOUNDARY,
                forall|i: int| 0 <= i < word@.len() - 1 ==> can_follow(g, #[trigger] word@[i], word@[i + 1]),
                word@.len() < MAX_WORD_LEN ==> can_follow(g, word@.last(), BOUNDARY),
            decreases MAX_WORD_LEN - word@.len(),
        {
            let row = self.graph.row_at(cur);
            let next = choose_from_top(row, k);
            let ghost a = vertices@[cur as int];
            let ghost b = vertices@[next as int];
            proof {
                lemma_pos(g, cur as int);
                lemma_pos(g, next as int);
                lemma_cell_bounds(n as int, cur as int, next as int);
                let top = choose|top: Seq<usize>| is_top(row@, k as int, top) && top.contains(next);
                assert(top.contains(g.pos(b) as usize));
                assert(g.weight(a, b) == row@[next as int]);
                assert(can_follow(g, a, b));
            }
            if vertices[next] == BOUNDARY {
                break;
            }
            let ghost prev = word@;
            word.push(vertices[next]);
            proof {
                assert forall|i: int| 0 <= i < word@.len() - 1 implies can_follow(
                    g,
                    #[trigger] word@[i],
                    word@[i + 1],
                ) by {
                    if i < word@.len() - 2 {
                        assert(word@[i] == prev[i] && word@[i + 1] == prev[i + 1]);
                    }
                }
            }
            cur = next;
        }
        string_of(&word)
    }

    /// The underlying transition graph.
    pub fn graph(&self) -> (r: &WeightedGraph)
        ensures
            r@ == self@,
    {
        &self.graph
    }
}

} // verus!
