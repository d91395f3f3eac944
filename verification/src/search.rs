//! The line matcher: which lines of a text hold a query.

use crate::fold::lowercase;
use crate::lines::{lines_of, split_lines};
use crate::order::{is_subsequence_of, lemma_filter_keeps_order, lemma_narrower_filter_keeps_less};
use crate::substring::{contains, lemma_empty_occurs_everywhere, occurs_in};
use vstd::prelude::*;
use vstd::string::*;
use vstd::utf8::*;

verus! {

/// The form in which a text is compared: its lowercase form where letter
/// case is ignored, the text itself where it is not.
pub open spec fn comparison_form(text: Seq<char>, ignore_case: bool) -> Seq<char> {
    if ignore_case {
        lowercase(text)
    } else {
        text
    }
}

/// The test that a line passes when `needle` occurs in its comparison form.
pub open spec fn holds(needle: Seq<char>, fold: bool) -> spec_fn(Seq<char>) -> bool {
    |line: Seq<char>| occurs_in(needle, comparison_form(line, fold))
}

/// The lines among `lines` whose comparison form holds `needle`, in order.
pub open spec fn selected(lines: Seq<Seq<char>>, needle: Seq<char>, fold: bool) -> Seq<Seq<char>> {
    lines.filter(holds(needle, fold))
}

/// `line` holds `query` under the chosen comparison.
pub open spec fn line_matches(query: Seq<char>, line: Seq<char>, ignore_case: bool) -> bool {
    occurs_in(comparison_form(query, ignore_case), comparison_form(line, ignore_case))
}

/// The lines of `contents` that hold `query` under the chosen comparison, in
/// the order in which they stand in `contents`. A line that holds the query
/// several times is there once.
pub open spec fn matching_lines(query: Seq<char>, contents: Seq<char>, ignore_case: bool) -> Seq<
    Seq<char>,
> {
    selected(lines_of(contents), comparison_form(query, ignore_case), ignore_case)
}

/// The empty needle selects every line, the empty ones too, whether lines
/// are folded or not.
pub proof fn lemma_empty_needle_selects_every_line(lines: Seq<Seq<char>>, fold: bool)
    ensures
        selected(lines, Seq::<char>::empty(), fold) == lines,
    decreases lines.len(),
{
    reveal(Seq::filter);
    if lines.len() != 0 {
        lemma_empty_needle_selects_every_line(lines.drop_last(), fold);
        lemma_empty_occurs_everywhere(comparison_form(lines.last(), fold));
        assert(lines.drop_last().push(lines.last()) =~= lines);
    }
}

/// The result holds exactly the matching lines: each line in it is a line
/// of the contents that holds the query under the chosen comparison, and a
/// line of the contents is in it if and only if it does so. A line that is
/// left out therefore does not hold the query.
pub proof fn lemma_result_is_exactly_the_matches(
    query: Seq<char>,
    contents: Seq<char>,
    ignore_case: bool,
)
    ensures
        forall|j: int|
            0 <= j < matching_lines(query, contents, ignore_case).len() ==> {
                &&& line_matches(
                    query,
                    #[trigger] matching_lines(query, contents, ignore_case)[j],
                    ignore_case,
                )
                &&& lines_of(contents).contains(matching_lines(query, contents, ignore_case)[j])
            },
        forall|i: int|
            0 <= i < lines_of(contents).len() ==> (matching_lines(
                query,
                contents,
                ignore_case,
            ).contains(#[trigger] lines_of(contents)[i]) <==> line_matches(
                query,
                lines_of(contents)[i],
                ignore_case,
            )),
{
    let lines = lines_of(contents);
    let test = holds(comparison_form(query, ignore_case), ignore_case);
    let found = matching_lines(query, contents, ignore_case);
    assert forall|j: int| 0 <= j < found.len() implies line_matches(
        query,
        #[trigger] found[j],
        ignore_case,
    ) && lines.contains(found[j]) by {
        lines.lemma_filter_pred(test, j);
        assert(found.contains(found[j]));
        lines.lemma_filter_contains_rev(test, found[j]);
    }
    assert forall|i: int| 0 <= i < lines.len() implies (found.contains(#[trigger] lines[i])
        <==> line_matches(query, lines[i], ignore_case)) by {
        if line_matches(query, lines[i], ignore_case) {
            lines.lemma_filter_contains(test, i);
        }
        if found.contains(lines[i]) {
            let j = choose|j: int| 0 <= j < found.len() && found[j] == lines[i];
            lines.lemma_filter_pred(test, j);
        }
    }
}

/// The result is a subsequence of the lines of the contents: the matching
/// lines stand in it in the order in which they stand in the contents.
pub proof fn lemma_result_keeps_line_order(query: Seq<char>, contents: Seq<char>, ignore_case: bool)
    ensures
        is_subsequence_of(matching_lines(query, contents, ignore_case), lines_of(contents)),
        matching_lines(query, contents, ignore_case).len() <= lines_of(contents).len(),
{
    let test = holds(comparison_form(query, ignore_case), ignore_case);
    lemma_filter_keeps_order(lines_of(contents), test);
    lines_of(contents).lemma_filter_len(test);
}

/// Two searches on the same query, contents and mode give the same result:
/// the same number of lines, and at each place the same line, character for
/// character and byte for byte.
pub proof fn lemma_same_inputs_same_result(
    query: Seq<char>,
    contents: Seq<char>,
    ignore_case: bool,
    first: Seq<Seq<char>>,
    second: Seq<Seq<char>>,
)
    requires
        first == matching_lines(query, contents, ignore_case),
        second == matching_lines(query, contents, ignore_case),
    ensures
        first == second,
        first.len() == second.len(),
        forall|i: int|
            0 <= i < first.len() ==> first[i] == second[i] && encode_utf8(first[i]) == encode_utf8(
                second[i],
            ),
{
}

/// The empty query returns every line of the contents, in order, where
/// letter case counts.
pub proof fn lemma_empty_query_returns_every_line(contents: Seq<char>)
    ensures
        matching_lines(Seq::<char>::empty(), contents, false) == lines_of(contents),
{
    lemma_empty_needle_selects_every_line(lines_of(contents), false);
}

/// Ignoring letter case only adds lines, as long as folding keeps each match
/// of the contents: where every line that holds the query as written also
/// holds it in lowercase form, the case-sensitive result is a subsequence of
/// the case-insensitive one, and each of its lines is in the other.
///
/// The condition is needed. Lowercasing looks at the letters around a Greek
/// capital sigma, so a query may fold differently alone than inside a line.
pub proof fn lemma_ignoring_case_only_adds_lines(query: Seq<char>, contents: Seq<char>)
    requires
        forall|i: int|
            0 <= i < lines_of(contents).len() && line_matches(
                query,
                #[trigger] lines_of(contents)[i],
                false,
            ) ==> line_matches(query, lines_of(contents)[i], true),
    ensures
        is_subsequence_of(
            matching_lines(query, contents, false),
            matching_lines(query, contents, true),
        ),
        forall|line: Seq<char>| #[trigger]
            matching_lines(query, contents, false).contains(line) ==> matching_lines(
                query,
                contents,
                true,
            ).contains(line),
{
    let lines = lines_of(contents);
    let exact = holds(comparison_form(query, false), false);
    let folded = holds(comparison_form(query, true), true);
    assert forall|i: int| 0 <= i < lines.len() && exact(lines[i]) implies folded(lines[i]) by {
        assert(line_matches(query, lines[i], false));
    }
    lemma_narrower_filter_keeps_less(lines, exact, folded);
    assert forall|line: Seq<char>| #[trigger]
        matching_lines(query, contents, false).contains(line) implies matching_lines(
        query,
        contents,
        true,
    ).contains(line) by {
        let found = matching_lines(query, contents, false);
        let j = choose|j: int| 0 <= j < found.len() && found[j] == line;
        lines.lemma_filter_pred(exact, j);
        lines.lemma_filter_contains_rev(exact, line);
        let i = choose|i: int| 0 <= i < lines.len() && lines[i] == line;
        assert(line_matches(query, lines[i], false));
        lines.lemma_filter_contains(folded, i);
    }
}

/// Keeps the lines whose comparison form holds `needle`. Where `fold` is set
/// each line is compared in its lowercase form, and `needle` is taken as it
/// is given: the caller folds it once.
pub fn select_lines<'a>(lines: &Vec<&'a str>, needle: &str, fold: bool) -> (out: Vec<&'a str>)
    ensures
        out.deep_view() == selected(lines.deep_view(), needle@, fold),
{
    let mut out: Vec<&'a str> = Vec::new();
    let mut i: usize = 0;
    proof {
        reveal(Seq::filter);
        assert(lines.deep_view().take(0) =~= Seq::<Seq<char>>::empty());
        assert(out.deep_view() =~= Seq::<Seq<char>>::empty());
    }
    while i < lines.len()
        invariant
            i <= lines.len(),
            out.deep_view() == selected(lines.deep_view().take(i as int), needle@, fold),
        decreases lines.len() - i,
    {
        let line: &'a str = lines[i];
        let hit = if fold {
            let key = line.to_lowercase();
            contains(key.as_str(), needle)
        } else {
            contains(line, needle)
        };
        let ghost sofar = out.deep_view();
        let ghost seen = lines.deep_view().take(i as int);
        proof {
            assert(lines.deep_view().take(i + 1) =~= seen.push(line@));
            seen.lemma_filter_push(line@, holds(needle@, fold));
            assert(hit == holds(needle@, fold)(line@));
        }
        if hit {
            out.push(line);
            proof {
                assert(out.deep_view() =~= sofar.push(line@));
            }
        }
        i += 1;
    }
    proof {
        assert(lines.deep_view().take(lines.len() as int) =~= lines.deep_view());
    }
    out
}

/// Returns the lines of `contents` that hold `query`, in their order in
/// `contents`. With `ignore_case` the query and each line are compared in
/// their lowercase forms; the query is folded once. Each returned line is a
/// slice of `contents`, in the letter case it has there. The empty query is
/// held by every line.
pub fn search_lines<'a>(query: &str, contents: &'a str, ignore_case: bool) -> (out: Vec<&'a str>)
    ensures
        out.deep_view() == matching_lines(query@, contents@, ignore_case),
        query@.len() == 0 ==> out.deep_view() == lines_of(contents@),
{
    let lines = split_lines(contents);
    proof {
        lemma_empty_needle_selects_every_line(lines.deep_view(), ignore_case);
    }
    if ignore_case {
        let folded = query.to_lowercase();
        proof {
            if query@.len() == 0 {
                assert(folded@ =~= Seq::<char>::empty());
            }
        }
        select_lines(&lines, folded.as_str(), true)
    } else {
        proof {
            if query@.len() == 0 {
                assert(query@ =~= Seq::<char>::empty());
            }
        }
        select_lines(&lines, query, false)
    }
}

/// Returns the lines of `contents` that hold `query` exactly as it is
/// written, letter case included.
pub fn search<'a>(query: &str, contents: &'a str) -> (out: Vec<&'a str>)
    ensures
        out.deep_view() == matching_lines(query@, contents@, false),
        out.deep_view() == lines_of(contents@).filter(|line: Seq<char>| occurs_in(query@, line)),
        query@.len() == 0 ==> out.deep_view() == lines_of(contents@),
{
    let out = search_lines(query, contents, false);
    proof {
        assert(holds(query@, false) =~= (|line: Seq<char>| occurs_in(query@, line)));
    }
    out
}

/// Returns the lines of `contents` whose lowercase form holds the lowercase
/// form of `query`.
pub fn search_case_insensitive<'a>(query: &str, contents: &'a str) -> (out: Vec<&'a str>)
    ensures
        out.deep_view() == matching_lines(query@, contents@, true),
        out.deep_view() == lines_of(contents@).filter(
            |line: Seq<char>| occurs_in(lowercase(query@), lowercase(line)),
        ),
        query@.len() == 0 ==> out.deep_view() == lines_of(contents@),
{
    let out = search_lines(query, contents, true);
    proof {
        assert(holds(lowercase(query@), true) =~= (|line: Seq<char>|
            occurs_in(lowercase(query@), lowercase(line))));
    }
    out
}

} // verus!
