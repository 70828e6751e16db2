//! Character-level text operations, each stated over `Seq<char>`.
use vstd::prelude::*;
use vstd::std_specs::iter::IteratorSpec;

verus! {

broadcast use vstd::string::group_string_axioms;

/// The characters with the Unicode `White_Space` property.
pub open spec fn is_space_spec(c: char) -> bool {
    let u = c as u32;
    (0x9 <= u && u <= 0xD) || u == 0x20 || u == 0x85 || u == 0xA0 || u == 0x1680 || (0x2000 <= u
        && u <= 0x200A) || u == 0x2028 || u == 0x2029 || u == 0x202F || u == 0x205F || u == 0x3000
}

/// Whether `c` is white space in the sense of Unicode's `White_Space` property.
pub fn is_space(c: char) -> (r: bool)
    ensures
        r == is_space_spec(c),
{
    let u = c as u32;
    (0x9 <= u && u <= 0xD) || u == 0x20 || u == 0x85 || u == 0xA0 || u == 0x1680 || (0x2000 <= u
        && u <= 0x200A) || u == 0x2028 || u == 0x2029 || u == 0x202F || u == 0x205F || u == 0x3000
}

/// The characters of `s`, in order.
pub fn chars_of(s: &str) -> (r: Vec<char>)
    ensures
        r@ == s@,
{
    let n = s.unicode_len();
    let mut out: Vec<char> = Vec::new();
    let mut it = s.chars();
    let mut i: usize = 0;
    while i < n
        invariant
            n == s@.len(),
            i <= n,
            out@.len() == i,
            out@ + it.remaining() == s@,
        decreases n - i,
    {
        if let Some(c) = it.next() {
            out.push(c);
        }
        i = i + 1;
    }
    out
}

/// Offset of the first `'\n'` in `s`, or `s.len()` when there is none.
pub open spec fn first_nl(s: Seq<char>) -> nat
    decreases s.len(),
{
    if s.len() == 0 {
        0
    } else if s[0] == '\n' {
        0
    } else {
        1 + first_nl(s.drop_first())
    }
}

/// `s` without its leading white space.
pub open spec fn trim_start(s: Seq<char>) -> Seq<char>
    decreases s.len(),
{
    if s.len() > 0 && is_space_spec(s[0]) {
        trim_start(s.drop_first())
    } else {
        s
    }
}

/// `s` without its trailing white space.
pub open spec fn trim_end(s: Seq<char>) -> Seq<char>
    decreases s.len(),
{
    if s.len() > 0 && is_space_spec(s.last()) {
        trim_end(s.drop_last())
    } else {
        s
    }
}

/// `s` without white space at either end.
pub open spec fn trim(s: Seq<char>) -> Seq<char> {
    trim_end(trim_start(s))
}

/// A line without the `'\r'` that ends it, if any.
pub open spec fn strip_cr(l: Seq<char>) -> Seq<char> {
    if l.len() > 0 && l.last() == '\r' {
        l.drop_last()
    } else {
        l
    }
}

/// The lines of `s`: split at each `'\n'` (a `'\r'` just before it belongs to
/// the line ending), with no empty line after a final line ending.
pub open spec fn lines_of(s: Seq<char>) -> Seq<Seq<char>>
    decreases s.len(),
{
    if s.len() == 0 {
        seq![]
    } else if first_nl(s) < s.len() {
        seq![strip_cr(s.take(first_nl(s) as int))] + lines_of(s.skip(first_nl(s) + 1int))
    } else {
        seq![s]
    }
}

/// The pieces of `ls` with `sep` between each two neighbours.
pub open spec fn join(ls: Seq<Seq<char>>, sep: Seq<char>) -> Seq<char>
    decreases ls.len(),
{
    if ls.len() == 0 {
        seq![]
    } else if ls.len() == 1 {
        ls[0]
    } else {
        ls[0] + sep + join(ls.drop_first(), sep)
    }
}

/// `s` with every occurrence of `pat`, scanned from the left and without
/// overlap, replaced by `rep`; text that `rep` brings in is not scanned again.
pub open spec fn replace_all(s: Seq<char>, pat: Seq<char>, rep: Seq<char>) -> Seq<char>
    decreases s.len(),
{
    if pat.len() == 0 || s.len() < pat.len() {
        s
    } else if s.take(pat.len() as int) == pat {
        rep + replace_all(s.skip(pat.len() as int), pat, rep)
    } else {
        seq![s[0]] + replace_all(s.drop_first(), pat, rep)
    }
}

/// Whether `pat` occurs in `s` at some position.
pub open spec fn occurs_in(pat: Seq<char>, s: Seq<char>) -> bool {
    exists|i: int| 0 <= i && i + pat.len() <= s.len() && #[trigger] s.subrange(i, i + pat.len()) == pat
}

pub proof fn lemma_first_nl(s: Seq<char>)
    ensures
        first_nl(s) <= s.len(),
        forall|j: int| 0 <= j < first_nl(s) ==> s[j] != '\n',
        first_nl(s) < s.len() ==> s[first_nl(s) as int] == '\n',
        (first_nl(s) < s.len()) == s.contains('\n'),
    decreases s.len(),
{
    if s.len() > 0 && s[0] != '\n' {
        lemma_first_nl(s.drop_first());
        assert forall|j: int| 0 <= j < first_nl(s) implies s[j] != '\n' by {
            if j > 0 {
                assert(s[j] == s.drop_first()[j - 1]);
            }
        }
        if s.contains('\n') {
            let j = choose|j: int| 0 <= j < s.len() && s[j] == '\n';
            assert(s.drop_first()[j - 1] == '\n');
        }
    }
    if first_nl(s) < s.len() {
        assert(s[first_nl(s) as int] == '\n');
    }
}

/// Offset in `v` of the first `'\n'` at or after `from`, or `v.len()`.
pub fn find_newline_in(v: &Vec<char>, from: usize) -> (r: usize)
    requires
        from <= v@.len(),
    ensures
        r == from + first_nl(v@.skip(from as int)),
{
    let mut i = from;
    while i < v.len() && v[i] != '\n'
        invariant
            from <= i <= v@.len(),
            first_nl(v@.skip(from as int)) == (i - from) + first_nl(v@.skip(i as int)),
        decreases v@.len() - i,
    {
        assert(v@.skip(i as int).drop_first() =~= v@.skip(i + 1));
        i = i + 1;
    }
    i
}

/// The bounds of `v[lo..hi]` once white space is taken off both ends.
pub fn trim_bounds_in(v: &Vec<char>, lo: usize, hi: usize) -> (r: (usize, usize))
    requires
        lo <= hi <= v@.len(),
    ensures
        lo <= r.0 <= r.1 <= hi,
        v@.subrange(r.0 as int, r.1 as int) == trim(v@.subrange(lo as int, hi as int)),
{
    let mut a = lo;
    while a < hi && is_space(v[a])
        invariant
            lo <= a <= hi <= v@.len(),
            trim_start(v@.subrange(lo as int, hi as int)) == trim_start(v@.subrange(a as int, hi as int)),
        decreases hi - a,
    {
        assert(v@.subrange(a as int, hi as int).drop_first() =~= v@.subrange(a + 1, hi as int));
        a = a + 1;
    }
    let mut b = hi;
    while b > a && is_space(v[b - 1])
        invariant
            lo <= a <= b <= hi <= v@.len(),
            trim_end(v@.subrange(a as int, hi as int)) == trim_end(v@.subrange(a as int, b as int)),
        decreases b - a,
    {
        assert(v@.subrange(a as int, b as int).drop_last() =~= v@.subrange(a as int, b - 1));
        b = b - 1;
    }
    (a, b)
}

/// Whether `pat` stands in `v` at offset `i`.
fn stands_at(v: &Vec<char>, i: usize, pat: &Vec<char>) -> (r: bool)
    requires
        i + pat@.len() <= v@.len(),
    ensures
        r == (v@.subrange(i as int, i + pat@.len()) == pat@),
{
    let n = v.len();
    let mut j: usize = 0;
    while j < pat.len()
        invariant
            n == v@.len(),
            j <= pat@.len(),
            i + pat@.len() <= v@.len(),
            forall|k: int| 0 <= k < j ==> v@[i + k] == pat@[k],
        decreases pat@.len() - j,
    {
        if v[i + j] != pat[j] {
            assert(v@.subrange(i as int, i + pat@.len())[j as int] != pat@[j as int]);
            return false;
        }
        j = j + 1;
    }
    assert(v@.subrange(i as int, i + pat@.len()) =~= pat@);
    true
}

/// `s` with every occurrence of `pat` replaced by `rep`, left to right.
pub fn replace(s: &str, pat: &str, rep: &str) -> (r: String)
    requires
        pat@.len() > 0,
    ensures
        r@ == replace_all(s@, pat@, rep@),
{
    let v = chars_of(s);
    let pv = chars_of(pat);
    let n = v.len();
    let m = pv.len();
    let mut out = String::new();
    let mut seg: usize = 0;
    let mut i: usize = 0;
    assert(v@.skip(0) =~= v@);
    assert(out@ + v@.subrange(0, 0) =~= seq![]);
    while i < n && m <= n - i
        invariant
            v@ == s@,
            pv@ == pat@,
            n == v@.len(),
            m == pv@.len(),
            m > 0,
            seg <= i <= n,
            replace_all(v@, pv@, rep@) == out@ + v@.subrange(seg as int, i as int) + replace_all(
                v@.skip(i as int),
                pv@,
                rep@,
            ),
        decreases n - i,
    {
        let ghost t = v@.skip(i as int);
        assert(t.take(m as int) =~= v@.subrange(i as int, i + m));
        if stands_at(&v, i, &pv) {
            assert(t.skip(m as int) =~= v@.skip(i + m));
            out.append(s.substring_char(seg, i));
            out.append(rep);
            i = i + m;
            seg = i;
            assert(v@.subrange(seg as int, i as int) =~= seq![]);
        } else {
            assert(t.drop_first() =~= v@.skip(i + 1));
            assert(v@.subrange(seg as int, i as int) + seq![t[0]] =~= v@.subrange(seg as int, i + 1));
            i = i + 1;
        }
    }
    assert(v@.subrange(seg as int, i as int) + v@.skip(i as int) =~= v@.subrange(seg as int, n as int));
    out.append(s.substring_char(seg, n));
    out
}

/// What remains to be added to a join of lines once some have been added:
/// the pieces of `ls` joined by `sep`, led by `sep` if `started` and `ls` is
/// not empty.
pub open spec fn join_rest(ls: Seq<Seq<char>>, sep: Seq<char>, started: bool) -> Seq<char> {
    if ls.len() == 0 {
        seq![]
    } else if started {
        sep + join(ls, sep)
    } else {
        join(ls, sep)
    }
}

proof fn lemma_join_rest_step(ls: Seq<Seq<char>>, sep: Seq<char>, started: bool)
    requires
        ls.len() > 0,
    ensures
        join_rest(ls, sep, started) == (if started {
            sep
        } else {
            Seq::<char>::empty()
        }) + ls[0] + join_rest(ls.drop_first(), sep, true),
{
    if ls.len() == 1 {
        assert(ls.drop_first().len() == 0);
        if started {
            assert(join_rest(ls, sep, started) =~= sep + ls[0] + Seq::<char>::empty());
        } else {
            assert(join_rest(ls, sep, started) =~= Seq::<char>::empty() + ls[0] + Seq::<char>::empty());
        }
    } else {
        if started {
            assert(join_rest(ls, sep, started) =~= sep + ls[0] + (sep + join(ls.drop_first(), sep)));
        } else {
            assert(join_rest(ls, sep, started) =~= Seq::<char>::empty() + ls[0] + (sep + join(ls.drop_first(), sep)));
        }
    }
}

/// The lines of `s` from offset `from` on, joined by `'\n'`.
pub fn join_lines_from(s: &str, v: &Vec<char>, from: usize) -> (r: String)
    requires
        v@ == s@,
        from <= v@.len(),
    ensures
        r@ == join(lines_of(v@.skip(from as int)), seq!['\n']),
{
    let n = v.len();
    let mut out = String::new();
    let mut started = false;
    let mut p = from;
    let ghost sep = seq!['\n'];
    proof {
        reveal_strlit("\n");
    }
    assert("\n"@ =~= sep);
    assert(out@ + join_rest(lines_of(v@.skip(from as int)), sep, false) =~= join(lines_of(v@.skip(from as int)), sep));
    while p < n
        invariant
            v@ == s@,
            n == v@.len(),
            "\n"@ == sep,
            sep == seq!['\n'],
            from <= p <= n,
            join(lines_of(v@.skip(from as int)), sep) == out@ + join_rest(
                lines_of(v@.skip(p as int)),
                sep,
                started,
            ),
        decreases n - p,
    {
        let ghost t = v@.skip(p as int);
        let k = find_newline_in(v, p);
        proof {
            lemma_first_nl(t);
        }
        let ghost ls = lines_of(t);
        let ghost before = out@;
        let ghost was_started = started;
        proof {
            lemma_join_rest_step(ls, sep, started);
        }
        if started {
            out.append("\n");
        }
        started = true;
        if k < n {
            let mut end = k;
            if end > p && v[end - 1] == '\r' {
                end = end - 1;
            }
            assert(t.take(first_nl(t) as int) =~= v@.subrange(p as int, k as int));
            assert(strip_cr(v@.subrange(p as int, k as int)) =~= v@.subrange(p as int, end as int));
            assert(t.skip(first_nl(t) + 1int) =~= v@.skip(k + 1));
            out.append(s.substring_char(p, end));
            p = k + 1;
        } else {
            assert(t =~= v@.subrange(p as int, n as int));
            assert(v@.skip(n as int).len() == 0);
            out.append(s.substring_char(p, n));
            p = n;
        }
        assert(ls.drop_first() == lines_of(v@.skip(p as int)));
        assert(out@ =~= before + (if was_started { sep } else { Seq::<char>::empty() }) + ls[0]);
    }
    assert(v@.skip(n as int).len() == 0);
    out
}

/// The stretches of `s` between the occurrences of `pat` that `replace_all`
/// replaces, in order.
pub open spec fn pieces(s: Seq<char>, pat: Seq<char>) -> Seq<Seq<char>>
    decreases s.len(),
{
    if pat.len() == 0 || s.len() < pat.len() {
        seq![s]
    } else if s.take(pat.len() as int) == pat {
        seq![Seq::<char>::empty()] + pieces(s.skip(pat.len() as int), pat)
    } else {
        let rest = pieces(s.drop_first(), pat);
        rest.update(0, seq![s[0]] + rest[0])
    }
}

proof fn lemma_pieces_shape(s: Seq<char>, pat: Seq<char>)
    ensures
        pieces(s, pat).len() >= 1,
        pieces(s, pat)[0].len() <= s.len(),
        pieces(s, pat)[0] == s.take(pieces(s, pat)[0].len() as int),
    decreases s.len(),
{
    if pat.len() == 0 || s.len() < pat.len() {
        assert(s.take(s.len() as int) =~= s);
    } else if s.take(pat.len() as int) == pat {
        lemma_pieces_shape(s.skip(pat.len() as int), pat);
        assert(s.take(0) =~= Seq::<char>::empty());
    } else {
        let t = s.drop_first();
        lemma_pieces_shape(t, pat);
        let r0 = pieces(t, pat)[0];
        assert forall|j: int| 0 < j < 1 + r0.len() implies (seq![s[0]] + r0)[j] == s[j] by {
            assert(r0[j - 1] == t.take(r0.len() as int)[j - 1]);
        }
        assert(seq![s[0]] + r0 =~= s.take(1 + r0.len() as int));
    }
}

proof fn lemma_join_cons(e: Seq<char>, ps: Seq<Seq<char>>, sep: Seq<char>)
    requires
        ps.len() >= 1,
    ensures
        join(seq![e] + ps, sep) == e + sep + join(ps, sep),
{
    assert((seq![e] + ps).drop_first() =~= ps);
}

proof fn lemma_join_grow_first(x: Seq<char>, ps: Seq<Seq<char>>, sep: Seq<char>)
    requires
        ps.len() >= 1,
    ensures
        join(ps.update(0, x + ps[0]), sep) == x + join(ps, sep),
{
    let qs = ps.update(0, x + ps[0]);
    if ps.len() == 1 {
        assert(join(qs, sep) == qs[0]);
    } else {
        assert(qs.drop_first() =~= ps.drop_first());
        assert(join(qs, sep) =~= x + join(ps, sep));
    }
}

/// Replacing every occurrence is joining the stretches between them by the
/// replacement.
pub proof fn lemma_replace_is_join(s: Seq<char>, pat: Seq<char>, rep: Seq<char>)
    ensures
        replace_all(s, pat, rep) == join(pieces(s, pat), rep),
    decreases s.len(),
{
    if pat.len() == 0 || s.len() < pat.len() {
    } else if s.take(pat.len() as int) == pat {
        let t = s.skip(pat.len() as int);
        lemma_replace_is_join(t, pat, rep);
        lemma_pieces_shape(t, pat);
        lemma_join_cons(Seq::<char>::empty(), pieces(t, pat), rep);
        assert(Seq::<char>::empty() + rep + join(pieces(t, pat), rep) =~= rep + join(pieces(t, pat), rep));
    } else {
        let t = s.drop_first();
        lemma_replace_is_join(t, pat, rep);
        lemma_pieces_shape(t, pat);
        lemma_join_grow_first(seq![s[0]], pieces(t, pat), rep);
    }
}

/// Putting the pattern back between the stretches gives the text again.
pub proof fn lemma_pieces_rejoin(s: Seq<char>, pat: Seq<char>)
    ensures
        join(pieces(s, pat), pat) == s,
    decreases s.len(),
{
    lemma_replace_is_join(s, pat, pat);
    lemma_replace_self(s, pat);
}

proof fn lemma_replace_self(s: Seq<char>, pat: Seq<char>)
    ensures
        replace_all(s, pat, pat) == s,
    decreases s.len(),
{
    if pat.len() == 0 || s.len() < pat.len() {
    } else if s.take(pat.len() as int) == pat {
        lemma_replace_self(s.skip(pat.len() as int), pat);
        assert(pat + s.skip(pat.len() as int) =~= s);
    } else {
        lemma_replace_self(s.drop_first(), pat);
        assert(seq![s[0]] + s.drop_first() =~= s);
    }
}

/// No stretch between replaced occurrences holds the pattern.
pub proof fn lemma_pieces_free(s: Seq<char>, pat: Seq<char>)
    requires
        pat.len() > 0,
    ensures
        forall|k: int| 0 <= k < pieces(s, pat).len() ==> !occurs_in(pat, #[trigger] pieces(s, pat)[k]),
    decreases s.len(),
{
    let m = pat.len() as int;
    if s.len() < pat.len() {
        assert forall|k: int| 0 <= k < pieces(s, pat).len() implies !occurs_in(pat, #[trigger] pieces(s, pat)[k]) by {
            assert(pieces(s, pat)[k] == s);
        }
    } else if s.take(m) == pat {
        let t = s.skip(m);
        lemma_pieces_free(t, pat);
        assert forall|k: int| 0 <= k < pieces(s, pat).len() implies !occurs_in(pat, #[trigger] pieces(s, pat)[k]) by {
            if k > 0 {
                assert(pieces(s, pat)[k] == pieces(t, pat)[k - 1]);
            }
        }
    } else {
        let t = s.drop_first();
        lemma_pieces_free(t, pat);
        lemma_pieces_shape(t, pat);
        lemma_pieces_shape(s, pat);
        let rest = pieces(t, pat);
        let p0 = seq![s[0]] + rest[0];
        assert forall|k: int| 0 <= k < pieces(s, pat).len() implies !occurs_in(pat, #[trigger] pieces(s, pat)[k]) by {
            if k == 0 {
                if occurs_in(pat, p0) {
                    let i = choose|i: int| 0 <= i && i + pat.len() <= p0.len() && #[trigger] p0.subrange(i, i + pat.len()) == pat;
                    if i == 0 {
                        assert(p0 == s.take(p0.len() as int));
                        assert forall|j: int| 0 <= j < m implies p0.subrange(0, m)[j] == s.take(m)[j] by {
                            assert(p0[j] == s.take(p0.len() as int)[j]);
                        }
                        assert(p0.subrange(0, m) =~= s.take(m));
                    } else {
                        assert(rest[0].subrange(i - 1, i - 1 + m) =~= p0.subrange(i, i + m));
                        assert(!occurs_in(pat, rest[0]));
                    }
                }
            } else {
                assert(pieces(s, pat)[k] == rest[k]);
            }
        }
    }
}

} // verus!
