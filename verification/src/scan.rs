//! Character-level scanning of the text format: lines, comments, blanks, words.
use vstd::prelude::*;

verus! {

/// Unicode White_Space, the blanks that separate words and are trimmed from lines.
pub open spec fn is_blank(c: char) -> bool {
    let x = c as u32;
    ||| 0x09 <= x <= 0x0D
    ||| x == 0x20
    ||| x == 0x85
    ||| x == 0xA0
    ||| x == 0x1680
    ||| 0x2000 <= x <= 0x200A
    ||| x == 0x2028
    ||| x == 0x2029
    ||| x == 0x202F
    ||| x == 0x205F
    ||| x == 0x3000
}

pub fn blank(c: char) -> (b: bool)
    ensures
        b == is_blank(c),
{
    let x = c as u32;
    (0x09 <= x && x <= 0x0D) || x == 0x20 || x == 0x85 || x == 0xA0 || x == 0x1680 || (0x2000 <= x && x
        <= 0x200A) || x == 0x2028 || x == 0x2029 || x == 0x202F || x == 0x205F || x == 0x3000
}

// ---------------------------------------------------------------------------
// Lines
// ---------------------------------------------------------------------------

/// Scanning the first `n` characters: the finished lines and the line in progress.
pub open spec fn split_state(s: Seq<char>, n: int) -> (Seq<Seq<char>>, Seq<char>)
    decreases n,
{
    if n <= 0 {
        (Seq::empty(), Seq::empty())
    } else {
        let (done, cur) = split_state(s, n - 1);
        if s[n - 1] == '\n' {
            (done.push(cur), Seq::empty())
        } else {
            (done, cur.push(s[n - 1]))
        }
    }
}

/// The lines of `s`: the pieces between newline characters.
pub open spec fn lines_of(s: Seq<char>) -> Seq<Seq<char>> {
    let (done, cur) = split_state(s, s.len() as int);
    done.push(cur)
}

/// `l` holds no newline character.
pub open spec fn newline_free(l: Seq<char>) -> bool {
    forall|i: int| 0 <= i < l.len() ==> l[i] != '\n'
}

/// Lines joined with a newline character between each two.
pub open spec fn join_lines(ls: Seq<Seq<char>>) -> Seq<char>
    decreases ls.len(),
{
    if ls.len() == 0 {
        Seq::empty()
    } else if ls.len() == 1 {
        ls[0]
    } else {
        join_lines(ls.drop_last()) + seq!['\n'] + ls.last()
    }
}

proof fn lemma_split_prefix(s: Seq<char>, t: Seq<char>, n: int)
    requires
        0 <= n <= s.len(),
        n <= t.len(),
        s.take(n) == t.take(n),
    ensures
        split_state(s, n) == split_state(t, n),
    decreases n,
{
    if n > 0 {
        assert(s.take(n)[n - 1] == s[n - 1]);
        assert(t.take(n)[n - 1] == t[n - 1]);
        assert(s.take(n - 1) =~= s.take(n).take(n - 1));
        assert(t.take(n - 1) =~= t.take(n).take(n - 1));
        lemma_split_prefix(s, t, n - 1);
    }
}

proof fn lemma_split_append(p: Seq<char>, l: Seq<char>, k: int)
    requires
        newline_free(l),
        0 <= k <= l.len(),
    ensures
        split_state(p + l, p.len() + k) == (split_state(p, p.len() as int).0, split_state(p, p.len() as int).1 + l.take(k)),
    decreases k,
{
    if k == 0 {
        assert((p + l).take(p.len() as int) =~= p.take(p.len() as int));
        lemma_split_prefix(p + l, p, p.len() as int);
        assert(split_state(p, p.len() as int).1 + l.take(0) =~= split_state(p, p.len() as int).1);
    } else {
        lemma_split_append(p, l, k - 1);
        assert((p + l)[p.len() + k - 1] == l[k - 1]);
        assert((split_state(p, p.len() as int).1 + l.take(k - 1)).push(l[k - 1]) =~= split_state(p, p.len() as int).1
            + l.take(k));
    }
}

/// The lines of a text followed by a newline and a line are its lines and that line.
proof fn lemma_lines_of_append(p: Seq<char>, l: Seq<char>)
    requires
        newline_free(l),
    ensures
        lines_of(p + seq!['\n'] + l) == lines_of(p).push(l),
{
    let q = p + seq!['\n'];
    assert(q[p.len() as int] == '\n');
    assert(q.take(p.len() as int) =~= p.take(p.len() as int));
    lemma_split_prefix(q, p, p.len() as int);
    lemma_split_append(q, l, l.len() as int);
    assert(l.take(l.len() as int) =~= l);
    assert(Seq::<char>::empty() + l =~= l);
    assert(q + l =~= p + seq!['\n'] + l);
}

/// Splitting joined newline-free lines gives the lines back.
pub proof fn lemma_lines_of_join(ls: Seq<Seq<char>>)
    requires
        ls.len() >= 1,
        forall|i: int| 0 <= i < ls.len() ==> newline_free(#[trigger] ls[i]),
    ensures
        lines_of(join_lines(ls)) == ls,
    decreases ls.len(),
{
    if ls.len() == 1 {
        lemma_split_append(Seq::empty(), ls[0], ls[0].len() as int);
        assert(Seq::<char>::empty() + ls[0] =~= ls[0]);
        assert(ls[0].take(ls[0].len() as int) =~= ls[0]);
        assert(Seq::<char>::empty() + ls[0] =~= ls[0]);
        assert(lines_of(ls[0]) =~= ls);
    } else {
        let p = ls.drop_last();
        assert forall|i: int| 0 <= i < p.len() implies newline_free(#[trigger] p[i]) by {
            assert(p[i] == ls[i]);
        }
        lemma_lines_of_join(p);
        lemma_lines_of_append(join_lines(p), ls.last());
        assert(p.push(ls.last()) =~= ls);
    }
}

proof fn lemma_split_join(s: Seq<char>, n: int)
    requires
        0 <= n <= s.len(),
    ensures
        join_lines(split_state(s, n).0.push(split_state(s, n).1)) == s.take(n),
        forall|i: int| 0 <= i < split_state(s, n).0.len() ==> newline_free(#[trigger] split_state(s, n).0[i]),
        newline_free(split_state(s, n).1),
    decreases n,
{
    if n == 0 {
        assert(s.take(0) =~= Seq::<char>::empty());
    } else {
        lemma_split_join(s, n - 1);
        let (done, cur) = split_state(s, n - 1);
        let c = s[n - 1];
        assert(s.take(n) =~= s.take(n - 1).push(c));
        if c == '\n' {
            let d2 = done.push(cur);
            assert(d2.push(Seq::<char>::empty()).drop_last() =~= d2);
            assert(join_lines(d2) + seq!['\n'] + Seq::<char>::empty() =~= s.take(n));
            assert forall|i: int| 0 <= i < d2.len() implies newline_free(#[trigger] d2[i]) by {
                if i < done.len() {
                    assert(d2[i] == done[i]);
                }
            }
        } else {
            let cur2 = cur.push(c);
            if done.len() == 0 {
                assert(done.push(cur2)[0] == cur2);
                assert(done.push(cur)[0] == cur);
            } else {
                assert(done.push(cur2).drop_last() =~= done);
                assert(done.push(cur).drop_last() =~= done);
                assert(join_lines(done) + seq!['\n'] + cur2 =~= (join_lines(done) + seq!['\n'] + cur).push(c));
            }
        }
    }
}

/// Every text is its lines joined by newlines, and no line holds a newline.
pub proof fn lemma_join_lines_of(src: Seq<char>)
    ensures
        lines_of(src).len() >= 1,
        forall|i: int| 0 <= i < lines_of(src).len() ==> newline_free(#[trigger] lines_of(src)[i]),
        join_lines(lines_of(src)) == src,
{
    lemma_split_join(src, src.len() as int);
    assert(src.take(src.len() as int) =~= src);
    let (done, cur) = split_state(src, src.len() as int);
    assert forall|i: int| 0 <= i < lines_of(src).len() implies newline_free(#[trigger] lines_of(src)[i]) by {
        if i < done.len() {
            assert(lines_of(src)[i] == done[i]);
        }
    }
}

pub fn split_lines(s: &Vec<char>) -> (r: Vec<Vec<char>>)
    ensures
        r@.map_values(|l: Vec<char>| l@) == lines_of(s@),
{
    let mut done: Vec<Vec<char>> = Vec::new();
    let mut cur: Vec<char> = Vec::new();
    let mut i: usize = 0;
    while i < s.len()
        invariant
            i <= s@.len(),
            (done@.map_values(|l: Vec<char>| l@), cur@) == split_state(s@, i as int),
        decreases s@.len() - i,
    {
        let c = s[i];
        if c == '\n' {
            let ghost d0 = done@.map_values(|l: Vec<char>| l@);
            let finished = cur;
            cur = Vec::new();
            done.push(finished);
            assert(done@.map_values(|l: Vec<char>| l@) =~= d0.push(finished@));
        } else {
            cur.push(c);
        }
        i = i + 1;
    }
    let ghost d0 = done@.map_values(|l: Vec<char>| l@);
    let c0 = cur;
    done.push(c0);
    assert(done@.map_values(|l: Vec<char>| l@) =~= d0.push(c0@));
    done
}

// ---------------------------------------------------------------------------
// Comments and blanks
// ---------------------------------------------------------------------------

/// The part of a line before its first `#`.
pub open spec fn before_hash(l: Seq<char>) -> Seq<char>
    decreases l.len(),
{
    if l.len() == 0 {
        l
    } else if l[0] == '#' {
        Seq::empty()
    } else {
        seq![l[0]] + before_hash(l.drop_first())
    }
}

proof fn lemma_before_hash(l: Seq<char>, p: int)
    requires
        0 <= p <= l.len(),
        forall|k: int| 0 <= k < p ==> l[k] != '#',
        p < l.len() ==> l[p] == '#',
    ensures
        before_hash(l) == l.take(p),
    decreases l.len(),
{
    if l.len() > 0 && p > 0 {
        lemma_before_hash(l.drop_first(), p - 1);
        assert(l.take(p) =~= seq![l[0]] + l.drop_first().take(p - 1));
    } else {
        assert(l.take(p) =~= Seq::<char>::empty());
    }
}

/// `l` without leading blanks.
pub open spec fn trim_start(l: Seq<char>) -> Seq<char>
    decreases l.len(),
{
    if l.len() > 0 && is_blank(l[0]) {
        trim_start(l.drop_first())
    } else {
        l
    }
}

/// `l` without trailing blanks.
pub open spec fn trim_end(l: Seq<char>) -> Seq<char>
    decreases l.len(),
{
    if l.len() > 0 && is_blank(l.last()) {
        trim_end(l.drop_last())
    } else {
        l
    }
}

/// `l` without leading and trailing blanks.
pub open spec fn trim(l: Seq<char>) -> Seq<char> {
    trim_end(trim_start(l))
}

/// A line with its comment removed and its blanks trimmed.
pub open spec fn clean_line(l: Seq<char>) -> Seq<char> {
    trim(before_hash(l))
}

proof fn lemma_trim_start(l: Seq<char>, p: int)
    requires
        0 <= p <= l.len(),
        forall|k: int| 0 <= k < p ==> is_blank(l[k]),
        p < l.len() ==> !is_blank(l[p]),
    ensures
        trim_start(l) == l.skip(p),
    decreases l.len(),
{
    if p > 0 {
        lemma_trim_start(l.drop_first(), p - 1);
        assert(l.drop_first().skip(p - 1) =~= l.skip(p));
    } else {
        assert(l.skip(0) =~= l);
    }
}

proof fn lemma_trim_end(l: Seq<char>, q: int)
    requires
        0 <= q <= l.len(),
        forall|k: int| q <= k < l.len() ==> is_blank(l[k]),
        q > 0 ==> !is_blank(l[q - 1]),
    ensures
        trim_end(l) == l.take(q),
    decreases l.len(),
{
    if q < l.len() {
        lemma_trim_end(l.drop_last(), q);
        assert(l.drop_last().take(q) =~= l.take(q));
    } else {
        assert(l.take(q) =~= l);
    }
}

proof fn lemma_before_hash_shape(l: Seq<char>) -> (h: int)
    ensures
        0 <= h <= l.len(),
        forall|k: int| 0 <= k < h ==> #[trigger] l[k] != '#',
        h < l.len() ==> l[h] == '#',
        before_hash(l) == l.take(h),
    decreases l.len(),
{
    if l.len() == 0 || l[0] == '#' {
        assert(l.take(0) =~= before_hash(l));
        0
    } else {
        let l1 = l.drop_first();
        let h = lemma_before_hash_shape(l1);
        assert(seq![l[0]] + l1.take(h) =~= l.take(h + 1));
        assert forall|k: int| 0 <= k < h + 1 implies #[trigger] l[k] != '#' by {
            if k > 0 {
                assert(l[k] == l1[k - 1]);
            }
        }
        h + 1
    }
}

proof fn lemma_trim_start_shape(x: Seq<char>) -> (a: int)
    ensures
        0 <= a <= x.len(),
        forall|k: int| 0 <= k < a ==> is_blank(#[trigger] x[k]),
        a < x.len() ==> !is_blank(x[a]),
        trim_start(x) == x.skip(a),
    decreases x.len(),
{
    if x.len() > 0 && is_blank(x[0]) {
        let x1 = x.drop_first();
        let a = lemma_trim_start_shape(x1);
        assert(x1.skip(a) =~= x.skip(a + 1));
        assert forall|k: int| 0 <= k < a + 1 implies is_blank(#[trigger] x[k]) by {
            if k > 0 {
                assert(x[k] == x1[k - 1]);
            }
        }
        a + 1
    } else {
        assert(x.skip(0) =~= x);
        0
    }
}

proof fn lemma_trim_end_shape(x: Seq<char>) -> (b: int)
    ensures
        0 <= b <= x.len(),
        forall|k: int| b <= k < x.len() ==> is_blank(#[trigger] x[k]),
        b > 0 ==> !is_blank(x[b - 1]),
        trim_end(x) == x.take(b),
    decreases x.len(),
{
    if x.len() > 0 && is_blank(x.last()) {
        let x1 = x.drop_last();
        let b = lemma_trim_end_shape(x1);
        assert(x1.take(b) =~= x.take(b));
        assert forall|k: int| b <= k < x.len() implies is_blank(#[trigger] x[k]) by {
            if k < x.len() - 1 {
                assert(x[k] == x1[k]);
            }
        }
        if b > 0 {
            assert(x[b - 1] == x1[b - 1]);
        }
        b
    } else {
        assert(x.take(x.len() as int) =~= x);
        x.len() as int
    }
}

/// A cleaned line is the piece of the line before its first `#`, without the
/// blanks at either end: the characters before it and after it up to the `#`
/// (or the end of the line) are blanks, and it starts and ends with a
/// non-blank character unless it is empty.
pub proof fn lemma_clean_line_shape(l: Seq<char>)
    ensures
        exists|h: int, a: int, b: int|
            #![trigger l.subrange(a, b), l.take(h)]
            {
            &&& 0 <= a <= b <= h <= l.len()
            &&& forall|k: int| 0 <= k < h ==> #[trigger] l[k] != '#'
            &&& h < l.len() ==> l[h] == '#'
            &&& clean_line(l) == l.subrange(a, b)
            &&& forall|k: int| 0 <= k < a ==> is_blank(#[trigger] l[k])
            &&& forall|k: int| b <= k < h ==> is_blank(#[trigger] l[k])
            &&& a < b ==> !is_blank(l[a]) && !is_blank(l[b - 1])
        },
{
    let h = lemma_before_hash_shape(l);
    let x = l.take(h);
    let a = lemma_trim_start_shape(x);
    let y = x.skip(a);
    let c = lemma_trim_end_shape(y);
    let b = a + c;
    assert(y.take(c) =~= l.subrange(a, b));
    assert forall|k: int| 0 <= k < a implies is_blank(#[trigger] l[k]) by {
        assert(x[k] == l[k]);
    }
    assert forall|k: int| b <= k < h implies is_blank(#[trigger] l[k]) by {
        assert(y[k - a] == l[k]);
    }
    if a < b {
        assert(x[a] == l[a]);
        assert(y[c - 1] == l[b - 1]);
    }
    assert(l.take(h) == x);
}

/// Removes the comment and trims the blanks of a line.
pub fn clean(l: &Vec<char>) -> (r: Vec<char>)
    ensures
        r@ == clean_line(l@),
{
    let mut p: usize = 0;
    while p < l.len() && l[p] != '#'
        invariant
            p <= l@.len(),
            forall|k: int| 0 <= k < p ==> l@[k] != '#',
        decreases l@.len() - p,
    {
        p = p + 1;
    }
    proof {
        lemma_before_hash(l@, p as int);
    }
    let ghost h = l@.take(p as int);
    let mut a: usize = 0;
    while a < p && blank(l[a])
        invariant
            a <= p <= l@.len(),
            forall|k: int| 0 <= k < a ==> is_blank(l@[k]),
        decreases p - a,
    {
        a = a + 1;
    }
    proof {
        lemma_trim_start(h, a as int);
    }
    let ghost h2 = h.skip(a as int);
    let mut b: usize = p;
    while b > a && blank(l[b - 1])
        invariant
            a <= b <= p <= l@.len(),
            forall|k: int| b <= k < p ==> is_blank(l@[k]),
        decreases b - a,
    {
        b = b - 1;
    }
    proof {
        assert forall|k: int| (b - a) <= k < h2.len() implies is_blank(h2[k]) by {
            assert(h2[k] == l@[k + a]);
        }
        if b > a {
            assert(h2[b - a - 1] == l@[b - 1]);
        }
        lemma_trim_end(h2, (b - a) as int);
    }
    let mut r: Vec<char> = Vec::new();
    let mut k: usize = a;
    while k < b
        invariant
            a <= k <= b <= p <= l@.len(),
            r@ == l@.subrange(a as int, k as int),
        decreases b - k,
    {
        r.push(l[k]);
        k = k + 1;
        assert(r@ =~= l@.subrange(a as int, k as int));
    }
    assert(r@ =~= h2.take((b - a) as int));
    r
}

// ---------------------------------------------------------------------------
// Words
// ---------------------------------------------------------------------------

/// Scanning the first `n` characters: the finished words and the word in progress.
pub open spec fn word_state(l: Seq<char>, n: int) -> (Seq<Seq<char>>, Seq<char>)
    decreases n,
{
    if n <= 0 {
        (Seq::empty(), Seq::empty())
    } else {
        let (done, cur) = word_state(l, n - 1);
        if is_blank(l[n - 1]) {
            if cur.len() > 0 {
                (done.push(cur), Seq::empty())
            } else {
                (done, cur)
            }
        } else {
            (done, cur.push(l[n - 1]))
        }
    }
}

/// The maximal runs of non-blank characters of `l`, in order.
pub open spec fn words_of(l: Seq<char>) -> Seq<Seq<char>> {
    let (done, cur) = word_state(l, l.len() as int);
    if cur.len() > 0 {
        done.push(cur)
    } else {
        done
    }
}

/// `w` are the runs of non-blank characters of `l` before position `upto`:
/// word `i` is `l[s[i]..e[i]]`, the words come in order with a gap between
/// each two, no word holds a blank, and every non-blank character before
/// `upto` lies in a word.
pub open spec fn runs_of(l: Seq<char>, w: Seq<Seq<char>>, s: Seq<int>, e: Seq<int>, upto: int) -> bool {
    &&& s.len() == w.len() && e.len() == w.len()
    &&& forall|i: int| 0 <= i < w.len() ==> 0 <= #[trigger] s[i] < e[i] <= upto && w[i] == l.subrange(s[i], e[i])
    &&& forall|i: int| 0 <= i < w.len() - 1 ==> #[trigger] e[i] < s[i + 1]
    &&& forall|i: int, k: int| 0 <= i < w.len() && #[trigger] s[i] <= k < e[i] ==> !is_blank(#[trigger] l[k])
    &&& forall|k: int| 0 <= k < upto && !is_blank(#[trigger] l[k]) ==> exists|i: int|
        0 <= i < w.len() && #[trigger] s[i] <= k < e[i]
}

proof fn lemma_word_state_runs(l: Seq<char>, n: int) -> (r: (Seq<int>, Seq<int>))
    requires
        0 <= n <= l.len(),
    ensures
        ({
            let (done, cur) = word_state(l, n);
            &&& runs_of(l, done, r.0, r.1, n - cur.len())
            &&& cur.len() <= n
            &&& cur == l.subrange(n - cur.len(), n)
            &&& forall|k: int| n - cur.len() <= k < n ==> !is_blank(#[trigger] l[k])
            &&& r.1.len() > 0 ==> r.1.last() < n - cur.len()
        }),
    decreases n,
{
    if n == 0 {
        (Seq::empty(), Seq::empty())
    } else {
        let (s0, e0) = lemma_word_state_runs(l, n - 1);
        let (done, cur) = word_state(l, n - 1);
        let c = l[n - 1];
        if is_blank(c) {
            if cur.len() > 0 {
                let st = n - 1 - cur.len();
                let s1 = s0.push(st);
                let e1 = e0.push(n - 1);
                let d1 = done.push(cur);
                assert forall|k: int| 0 <= k < n && !is_blank(#[trigger] l[k]) implies exists|i: int|
                    0 <= i < d1.len() && #[trigger] s1[i] <= k < e1[i] by {
                    if k < st {
                        let i = choose|i: int| 0 <= i < done.len() && #[trigger] s0[i] <= k < e0[i];
                        assert(s1[i] == s0[i] && e1[i] == e0[i]);
                    } else {
                        assert(s1[done.len() as int] == st);
                    }
                }
                assert forall|i: int, k: int| 0 <= i < d1.len() && #[trigger] s1[i] <= k < e1[i] implies !is_blank(
                    #[trigger] l[k],
                ) by {
                    if i < done.len() {
                        assert(s1[i] == s0[i] && e1[i] == e0[i]);
                    }
                }
                assert forall|i: int| 0 <= i < d1.len() - 1 implies #[trigger] e1[i] < s1[i + 1] by {
                    if i < done.len() - 1 {
                        assert(e1[i] == e0[i] && s1[i + 1] == s0[i + 1]);
                    } else {
                        assert(e1[i] == e0.last());
                    }
                }
                assert forall|i: int| 0 <= i < d1.len() implies 0 <= #[trigger] s1[i] < e1[i] <= n && d1[i]
                    == l.subrange(s1[i], e1[i]) by {
                    if i < done.len() {
                        assert(s1[i] == s0[i] && e1[i] == e0[i] && d1[i] == done[i]);
                    }
                }
                (s1, e1)
            } else {
                assert forall|k: int| 0 <= k < n && !is_blank(#[trigger] l[k]) implies exists|i: int|
                    0 <= i < done.len() && #[trigger] s0[i] <= k < e0[i] by {
                }
                assert(Seq::<char>::empty() == l.subrange(n, n));
                (s0, e0)
            }
        } else {
            assert(cur.push(c) =~= l.subrange(n - cur.len() - 1, n));
            (s0, e0)
        }
    }
}

/// The words of a line are its maximal runs of non-blank characters, in order.
pub proof fn lemma_words_are_runs(l: Seq<char>)
    ensures
        exists|s: Seq<int>, e: Seq<int>| #[trigger] runs_of(l, words_of(l), s, e, l.len() as int),
{
    let n = l.len() as int;
    let (s0, e0) = lemma_word_state_runs(l, n);
    let (done, cur) = word_state(l, n);
    if cur.len() > 0 {
        let st = n - cur.len();
        let s1 = s0.push(st);
        let e1 = e0.push(n);
        let d1 = done.push(cur);
        assert forall|k: int| 0 <= k < n && !is_blank(#[trigger] l[k]) implies exists|i: int|
            0 <= i < d1.len() && #[trigger] s1[i] <= k < e1[i] by {
            if k < st {
                let i = choose|i: int| 0 <= i < done.len() && #[trigger] s0[i] <= k < e0[i];
                assert(s1[i] == s0[i] && e1[i] == e0[i]);
            } else {
                assert(s1[done.len() as int] == st);
            }
        }
        assert forall|i: int, k: int| 0 <= i < d1.len() && #[trigger] s1[i] <= k < e1[i] implies !is_blank(
            #[trigger] l[k],
        ) by {
            if i < done.len() {
                assert(s1[i] == s0[i] && e1[i] == e0[i]);
            }
        }
        assert forall|i: int| 0 <= i < d1.len() - 1 implies #[trigger] e1[i] < s1[i + 1] by {
            if i < done.len() - 1 {
                assert(e1[i] == e0[i] && s1[i + 1] == s0[i + 1]);
            } else {
                assert(e1[i] == e0.last());
            }
        }
        assert forall|i: int| 0 <= i < d1.len() implies 0 <= #[trigger] s1[i] < e1[i] <= n && d1[i] == l.subrange(
            s1[i],
            e1[i],
        ) by {
            if i < done.len() {
                assert(s1[i] == s0[i] && e1[i] == e0[i] && d1[i] == done[i]);
            }
        }
        assert(runs_of(l, words_of(l), s1, e1, n));
    } else {
        assert(runs_of(l, words_of(l), s0, e0, n));
    }
}

pub open spec fn seqs_view(v: Seq<Vec<char>>) -> Seq<Seq<char>> {
    v.map_values(|w: Vec<char>| w@)
}

pub fn split_words(l: &Vec<char>) -> (r: Vec<Vec<char>>)
    ensures
        seqs_view(r@) == words_of(l@),
{
    let mut done: Vec<Vec<char>> = Vec::new();
    let mut cur: Vec<char> = Vec::new();
    let mut i: usize = 0;
    while i < l.len()
        invariant
            i <= l@.len(),
            (seqs_view(done@), cur@) == word_state(l@, i as int),
        decreases l@.len() - i,
    {
        let c = l[i];
        if blank(c) {
            if cur.len() > 0 {
                let ghost d0 = seqs_view(done@);
                let w = cur;
                cur = Vec::new();
                done.push(w);
                assert(seqs_view(done@) =~= d0.push(w@));
            }
        } else {
            cur.push(c);
        }
        i = i + 1;
    }
    if cur.len() > 0 {
        let ghost d0 = seqs_view(done@);
        let w = cur;
        done.push(w);
        assert(seqs_view(done@) =~= d0.push(w@));
    }
    done
}

// ---------------------------------------------------------------------------
// Small text operations
// ---------------------------------------------------------------------------

/// `l` without its trailing `:` characters.
pub open spec fn strip_colons(l: Seq<char>) -> Seq<char>
    decreases l.len(),
{
    if l.len() > 0 && l.last() == ':' {
        strip_colons(l.drop_last())
    } else {
        l
    }
}

/// Stripping the colons keeps the line up to its trailing `:` characters:
/// what remains is a prefix of the line, everything after it is `:`, and it
/// does not itself end in `:`.
pub proof fn lemma_strip_colons_shape(l: Seq<char>)
    ensures
        strip_colons(l).len() <= l.len(),
        l.take(strip_colons(l).len() as int) == strip_colons(l),
        forall|k: int| strip_colons(l).len() <= k < l.len() ==> #[trigger] l[k] == ':',
        strip_colons(l).len() > 0 ==> strip_colons(l).last() != ':',
    decreases l.len(),
{
    if l.len() > 0 && l.last() == ':' {
        let l1 = l.drop_last();
        lemma_strip_colons_shape(l1);
        let n = strip_colons(l1).len() as int;
        assert(l.take(n) =~= l1.take(n));
        assert forall|k: int| n <= k < l.len() implies #[trigger] l[k] == ':' by {
            if k < l.len() - 1 {
                assert(l[k] == l1[k]);
            }
        }
    } else {
        assert(l.take(l.len() as int) =~= l);
    }
}

pub fn strip_trailing_colons(l: &Vec<char>) -> (r: Vec<char>)
    ensures
        r@ == strip_colons(l@),
{
    let mut r: Vec<char> = Vec::new();
    let mut q: usize = l.len();
    assert(l@.take(l@.len() as int) =~= l@);
    while q > 0 && l[q - 1] == ':'
        invariant
            q <= l@.len(),
            strip_colons(l@) == strip_colons(l@.take(q as int)),
        decreases q,
    {
        assert(l@.take(q as int).drop_last() =~= l@.take(q - 1));
        q = q - 1;
    }
    let mut k: usize = 0;
    while k < q
        invariant
            k <= q <= l@.len(),
            r@ == l@.take(k as int),
        decreases q - k,
    {
        r.push(l[k]);
        k = k + 1;
        assert(r@ =~= l@.take(k as int));
    }
    r
}

/// The words joined by single spaces.
pub open spec fn join_words(w: Seq<Seq<char>>) -> Seq<char>
    decreases w.len(),
{
    if w.len() == 0 {
        Seq::empty()
    } else if w.len() == 1 {
        w[0]
    } else {
        join_words(w.drop_last()) + seq![' '] + w.last()
    }
}

/// Joins `w[from..to]` with single spaces.
pub fn join_range(w: &Vec<Vec<char>>, from: usize, to: usize) -> (r: Vec<char>)
    requires
        from <= to <= w@.len(),
    ensures
        r@ == join_words(seqs_view(w@).subrange(from as int, to as int)),
{
    let mut r: Vec<char> = Vec::new();
    let mut k: usize = from;
    while k < to
        invariant
            from <= k <= to <= w@.len(),
            r@ == join_words(seqs_view(w@).subrange(from as int, k as int)),
        decreases to - k,
    {
        let ghost before = seqs_view(w@).subrange(from as int, k as int);
        assert(seqs_view(w@).subrange(from as int, k + 1).drop_last() =~= before);
        if k > from {
            r.push(' ');
        }
        let word = &w[k];
        let mut j: usize = 0;
        let ghost r0 = r@;
        while j < word.len()
            invariant
                j <= word@.len(),
                r@ == r0 + word@.take(j as int),
            decreases word@.len() - j,
        {
            r.push(word[j]);
            j = j + 1;
            assert(r@ =~= r0 + word@.take(j as int));
        }
        assert(word@.take(word@.len() as int) =~= word@);
        k = k + 1;
        proof {
            let now = seqs_view(w@).subrange(from as int, k as int);
            assert(now.last() == word@);
            if k - 1 == from {
                assert(r0 =~= Seq::<char>::empty());
                assert(r@ =~= word@);
            } else {
                assert(r@ =~= join_words(before) + seq![' '] + word@);
            }
        }
    }
    r
}

/// Whether two character sequences are equal.
pub fn same_chars(a: &[char], b: &[char]) -> (r: bool)
    ensures
        r == (a@ == b@),
{
    if a.len() != b.len() {
        return false;
    }
    let mut i: usize = 0;
    while i < a.len()
        invariant
            a@.len() == b@.len(),
            i <= a@.len(),
            forall|k: int| 0 <= k < i ==> a@[k] == b@[k],
        decreases a@.len() - i,
    {
        if a[i] != b[i] {
            return false;
        }
        i = i + 1;
    }
    assert(a@ =~= b@);
    true
}

/// Whether `a` holds exactly the characters of `w`.
pub fn is_word(a: &Vec<char>, w: &str) -> (r: bool)
    ensures
        r == (a@ == w@),
{
    let v = crate::sorting::chars_of(w);
    same_chars(a.as_slice(), v.as_slice())
}

/// The decimal digits of `n`.
pub open spec fn decimal(n: nat) -> Seq<char>
    decreases n,
{
    if n < 10 {
        seq![(48 + n) as char]
    } else {
        decimal(n / 10).push((48 + n % 10) as char)
    }
}

pub fn decimal_chars(n: usize) -> (r: Vec<char>)
    ensures
        r@ == decimal(n as nat),
    decreases n,
{
    if n < 10 {
        let c = digit(n);
        vec![c]
    } else {
        let mut r = decimal_chars(n / 10);
        r.push(digit(n % 10));
        r
    }
}

fn digit(d: usize) -> (c: char)
    requires
        d < 10,
    ensures
        c == (48 + d) as char,
{
    if d == 0 { '0' }
    else if d == 1 { '1' }
    else if d == 2 { '2' }
    else if d == 3 { '3' }
    else if d == 4 { '4' }
    else if d == 5 { '5' }
    else if d == 6 { '6' }
    else if d == 7 { '7' }
    else if d == 8 { '8' }
    else { '9' }
}

} // verus!
