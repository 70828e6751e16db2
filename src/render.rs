//! Turning one template fragment and the layout into a page.
use crate::text::{
    chars_of, find_newline_in, first_nl, join, join_lines_from, lemma_first_nl, lemma_pieces_free,
    lemma_pieces_rejoin, lemma_replace_is_join, lines_of, occurs_in, pieces, replace, replace_all,
    trim, trim_bounds_in,
};
use vstd::prelude::*;

verus! {

broadcast use vstd::string::group_string_axioms;

/// The title given to a fragment without a line break.
pub open spec fn untitled() -> Seq<char> {
    seq!['U', 'n', 't', 'i', 't', 'l', 'e', 'd']
}

/// The placeholder that the title replaces in the layout.
pub open spec fn title_token() -> Seq<char> {
    seq!['{', '{', 't', 'i', 't', 'l', 'e', '}', '}']
}

/// The placeholder that the body replaces in the layout.
pub open spec fn body_token() -> Seq<char> {
    seq!['{', '{', 'b', 'o', 'd', 'y', '}', '}']
}

/// The title of a fragment: its first line without surrounding white space,
/// or `Untitled` when the fragment holds no line break.
pub open spec fn title_of(f: Seq<char>) -> Seq<char> {
    if f.contains('\n') {
        trim(f.take(first_nl(f) as int))
    } else {
        untitled()
    }
}

/// The body of a fragment: its lines after the first, joined by `'\n'`.
pub open spec fn body_of(f: Seq<char>) -> Seq<char> {
    let ls = lines_of(f);
    if ls.len() == 0 {
        seq![]
    } else {
        join(ls.drop_first(), seq!['\n'])
    }
}

/// The page for fragment `f` in layout `l`: every title placeholder replaced
/// by the title, then every body placeholder of that result by the body.
pub open spec fn page_of(f: Seq<char>, l: Seq<char>) -> Seq<char> {
    replace_all(replace_all(l, title_token(), title_of(f)), body_token(), body_of(f))
}

/// The title of `fragment`.
pub fn extract_title(fragment: &str) -> (r: String)
    ensures
        r@ == title_of(fragment@),
{
    let v = chars_of(fragment);
    let k = find_newline_in(&v, 0);
    proof {
        lemma_first_nl(fragment@);
        assert(v@.skip(0) =~= v@);
    }
    if k < v.len() {
        let (a, b) = trim_bounds_in(&v, 0, k);
        assert(v@.subrange(0, k as int) =~= fragment@.take(first_nl(fragment@) as int));
        String::from_str(fragment.substring_char(a, b))
    } else {
        let r = String::from_str("Untitled");
        proof {
            reveal_strlit("Untitled");
        }
        assert(r@ =~= untitled());
        r
    }
}

/// The body of `fragment`.
pub fn extract_body(fragment: &str) -> (r: String)
    ensures
        r@ == body_of(fragment@),
{
    let v = chars_of(fragment);
    let k = find_newline_in(&v, 0);
    proof {
        lemma_first_nl(fragment@);
        assert(v@.skip(0) =~= v@);
    }
    if k < v.len() {
        let r = join_lines_from(fragment, &v, k + 1);
        let ghost f = fragment@;
        assert(lines_of(f).drop_first() =~= lines_of(f.skip(first_nl(f) + 1int)));
        r
    } else {
        proof {
            if fragment@.len() > 0 {
                assert(lines_of(fragment@) == seq![fragment@]);
                assert(lines_of(fragment@).drop_first() =~= Seq::<Seq<char>>::empty());
            }
        }
        String::new()
    }
}

/// The page for `fragment` in `layout`.
pub fn render_page(fragment: &str, layout: &str) -> (r: String)
    ensures
        r@ == page_of(fragment@, layout@),
{
    let title = extract_title(fragment);
    let body = extract_body(fragment);
    proof {
        reveal_strlit("{{title}}");
        reveal_strlit("{{body}}");
    }
    assert("{{title}}"@ =~= title_token());
    assert("{{body}}"@ =~= body_token());
    let with_title = replace(layout, "{{title}}", title.as_str());
    replace(with_title.as_str(), "{{body}}", body.as_str())
}

/// A fragment with a line break at `i`, the first one, has for title the text
/// before `i` without surrounding white space, and for body the lines after
/// `i` joined by `'\n'`: the first line is not part of the body.
pub proof fn law_first_line_is_title(f: Seq<char>, i: int)
    requires
        0 <= i < f.len(),
        f[i] == '\n',
        !f.take(i).contains('\n'),
    ensures
        title_of(f) == trim(f.take(i)),
        body_of(f) == join(lines_of(f.skip(i + 1)), seq!['\n']),
{
    lemma_first_nl(f);
    if first_nl(f) < i {
        assert(f.take(i)[first_nl(f) as int] == '\n');
    }
    assert(f.contains('\n'));
    assert(first_nl(f) == i);
    assert(lines_of(f).drop_first() =~= lines_of(f.skip(i + 1)));
}

/// A fragment without a line break is titled `Untitled` and has an empty body.
pub proof fn law_no_line_break(f: Seq<char>, l: Seq<char>)
    requires
        !f.contains('\n'),
    ensures
        title_of(f) == untitled(),
        body_of(f) == Seq::<char>::empty(),
        page_of(f, l) == replace_all(replace_all(l, title_token(), untitled()), body_token(), seq![]),
{
    lemma_first_nl(f);
    if f.len() > 0 {
        assert(lines_of(f) == seq![f]);
        assert(lines_of(f).drop_first() =~= Seq::<Seq<char>>::empty());
    }
}

/// Substitution replaces every occurrence of a placeholder: the text splits
/// into stretches that hold no placeholder, separated by the placeholder, and
/// the result is those same stretches separated by the replacement.
pub proof fn law_every_placeholder_replaced(l: Seq<char>, tok: Seq<char>, rep: Seq<char>)
    requires
        tok == title_token() || tok == body_token(),
    ensures
        join(pieces(l, tok), tok) == l,
        forall|k: int| 0 <= k < pieces(l, tok).len() ==> !occurs_in(tok, #[trigger] pieces(l, tok)[k]),
        replace_all(l, tok, rep) == join(pieces(l, tok), rep),
{
    lemma_pieces_rejoin(l, tok);
    lemma_pieces_free(l, tok);
    lemma_replace_is_join(l, tok, rep);
}

/// A layout that holds neither placeholder is the page itself, whatever the
/// fragment.
pub proof fn law_layout_without_placeholders(f: Seq<char>, l: Seq<char>)
    requires
        !occurs_in(title_token(), l),
        !occurs_in(body_token(), l),
    ensures
        page_of(f, l) == l,
{
    lemma_no_occurrence_unchanged(l, title_token(), title_of(f));
    lemma_no_occurrence_unchanged(l, body_token(), body_of(f));
}

proof fn lemma_no_occurrence_unchanged(s: Seq<char>, pat: Seq<char>, rep: Seq<char>)
    requires
        !occurs_in(pat, s),
    ensures
        replace_all(s, pat, rep) == s,
    decreases s.len(),
{
    if pat.len() == 0 || s.len() < pat.len() {
    } else {
        if s.take(pat.len() as int) == pat {
            assert(s.subrange(0int, 0int + pat.len()) =~= s.take(pat.len() as int));
            assert(false);
        }
        let t = s.drop_first();
        assert(!occurs_in(pat, t)) by {
            if occurs_in(pat, t) {
                let i = choose|i: int| 0 <= i && i + pat.len() <= t.len() && #[trigger] t.subrange(i, i + pat.len()) == pat;
                assert(s.subrange(i + 1, i + 1 + pat.len()) =~= t.subrange(i, i + pat.len()));
            }
        }
        lemma_no_occurrence_unchanged(t, pat, rep);
        assert(seq![s[0]] + t =~= s);
    }
}

} // verus!
