//! Dotted context ids as text: which are valid, and which ids lie above one.

use crate::text::{chars_of, is_digit, last_dot, lemma_last_dot, segments};
use vstd::prelude::*;
use vstd::string::*;

verus! {

/// A piece of a valid id: a non-empty run of digits.
pub open spec fn is_number(s: Seq<char>) -> bool {
    s.len() > 0 && forall|i: int| 0 <= i < s.len() ==> is_digit(#[trigger] s[i])
}

/// A valid id: numbers with dots between them.
pub open spec fn valid_ctx_id(s: Seq<char>) -> bool {
    forall|k: int| 0 <= k < segments(s).len() ==> is_number(#[trigger] segments(s)[k])
}

/// An id and all ids above it, each got from the one before by cutting off
/// the last dot and what follows it.
pub open spec fn spec_ancestors(s: Seq<char>) -> Seq<Seq<char>>
    decreases s.len(),
{
    match last_dot(s) {
        None => seq![s],
        Some(p) => {
            proof {
                lemma_last_dot(s);
            }
            seq![s] + spec_ancestors(s.take(p))
        },
    }
}

/// Digits and dots, where no dot stands first, last or next to another.
spec fn well_shaped(s: Seq<char>) -> bool {
    &&& s.len() > 0
    &&& s[0] != '.'
    &&& s.last() != '.'
    &&& forall|i: int| 0 <= i < s.len() ==> is_digit(#[trigger] s[i]) || s[i] == '.'
    &&& forall|i: int, j: int|
        0 <= i < s.len() && j == i + 1 && j < s.len() && #[trigger] s[i] == '.' ==> #[trigger] s[j]
            != '.'
}

proof fn lemma_valid_iff_well_shaped(s: Seq<char>)
    ensures
        valid_ctx_id(s) <==> well_shaped(s),
    decreases s.len(),
{
    lemma_last_dot(s);
    match last_dot(s) {
        None => {
            assert(segments(s)[0] == s);
            if valid_ctx_id(s) {
                assert(is_number(s));
                assert(well_shaped(s));
            }
            if well_shaped(s) {
                assert(is_number(s));
            }
        },
        Some(p) => {
            let head = s.take(p);
            let tail = s.skip(p + 1);
            lemma_valid_iff_well_shaped(head);
            let n = segments(head).len() as int;
            assert(segments(s) == segments(head).push(tail));
            assert(segments(s)[n] == tail);
            assert(forall|k: int| 0 <= k < n ==> segments(s)[k] == segments(head)[k]);
            assert(forall|i: int| 0 <= i < tail.len() ==> tail[i] == s[p + 1 + i]);
            assert(forall|i: int| 0 <= i < p ==> head[i] == s[i]);
            if valid_ctx_id(s) {
                assert(is_number(tail));
                assert forall|k: int| 0 <= k < n implies is_number(#[trigger] segments(head)[k]) by {
                    assert(is_number(segments(s)[k]));
                }
                assert(well_shaped(head));
                assert forall|i: int| 0 <= i < s.len() implies is_digit(#[trigger] s[i]) || s[i]
                    == '.' by {
                    if i < p {
                        assert(is_digit(head[i]) || head[i] == '.');
                    } else if i > p {
                        assert(is_digit(tail[i - p - 1]));
                    }
                }
                assert(s[0] == head[0]);
                assert(s[p - 1] == head.last());
                assert(tail.last() == s.last());
                assert(tail[0] == s[p + 1]);
                assert forall|i: int, j: int|
                    0 <= i < s.len() && j == i + 1 && j < s.len() && #[trigger] s[i]
                        == '.' implies #[trigger] s[j] != '.' by {
                    if j < p {
                        assert(head[i] == '.');
                        assert(head[j] != '.');
                    }
                }
            }
            if well_shaped(s) {
                assert(p > 0);
                assert(s[p - 1] != '.');
                assert(tail.len() > 0);
                assert(is_number(tail)) by {
                    assert forall|i: int| 0 <= i < tail.len() implies is_digit(
                        #[trigger] tail[i],
                    ) by {
                        assert(is_digit(s[p + 1 + i]) || s[p + 1 + i] == '.');
                    }
                }
                assert(well_shaped(head)) by {
                    assert forall|i: int| 0 <= i < head.len() implies is_digit(#[trigger] head[i])
                        || head[i] == '.' by {
                        assert(is_digit(s[i]) || s[i] == '.');
                    }
                    assert forall|i: int, j: int|
                        0 <= i < head.len() && j == i + 1 && j < head.len() && #[trigger] head[i]
                            == '.' implies #[trigger] head[j] != '.' by {
                        assert(s[i] == '.');
                        assert(s[j] != '.');
                    }
                }
                assert forall|k: int| 0 <= k < segments(s).len() implies is_number(
                    #[trigger] segments(s)[k],
                ) by {
                    if k < n {
                        assert(is_number(segments(head)[k]));
                    }
                }
            }
        },
    }
}

/// Which texts are valid ids: those that are not empty, hold no character but
/// `0` to `9` and the dot, neither begin nor end with a dot, and have no two dots
/// next to each other. Every other text is not valid.
pub proof fn lemma_valid_ids_are_digits_and_dots(s: Seq<char>)
    ensures
        valid_ctx_id(s) <==> {
            &&& s.len() > 0
            &&& s[0] != '.'
            &&& s[s.len() - 1] != '.'
            &&& forall|i: int| 0 <= i < s.len() ==> '0' <= #[trigger] s[i] <= '9' || s[i] == '.'
            &&& forall|i: int, j: int|
                0 <= i < s.len() && j == i + 1 && j < s.len() && #[trigger] s[i] == '.'
                    ==> #[trigger] s[j] != '.'
        },
{
    lemma_valid_iff_well_shaped(s);
}

/// One character other than `0` to `9` and the dot, wherever it stands, makes a
/// text no valid id; so does a dot at either end, or behind another.
pub proof fn lemma_one_wrong_character_spoils_an_id(s: Seq<char>, i: int)
    requires
        0 <= i < s.len(),
        s[i] < '0' || s[i] > '9',
        s[i] != '.' || i == 0 || i == s.len() - 1 || s[i - 1] == '.',
    ensures
        !valid_ctx_id(s),
{
    lemma_valid_ids_are_digits_and_dots(s);
}

/// Whether a text is a valid context id: numbers with dots between them.
pub fn is_valid_ctx_id(s: &str) -> (r: bool)
    ensures
        r == valid_ctx_id(s@),
        r ==> forall|i: int|
            0 <= i < s@.len() ==> '0' <= #[trigger] s@[i] <= '9' || s@[i] == '.',
{
    let chars = chars_of(s);
    let mut after_dot = true;
    let mut i: usize = 0;
    proof {
        lemma_valid_iff_well_shaped(s@);
    }
    while i < chars.len()
        invariant
            chars@ == s@,
            i <= chars@.len(),
            valid_ctx_id(s@) <==> well_shaped(s@),
            after_dot == (i == 0 || chars@[i - 1] == '.'),
            i > 0 ==> chars@[0] != '.',
            forall|k: int| 0 <= k < i ==> is_digit(#[trigger] chars@[k]) || chars@[k] == '.',
            forall|k: int, j: int|
                0 <= k < i && j == k + 1 && j < i && #[trigger] chars@[k] == '.'
                    ==> #[trigger] chars@[j] != '.',
        decreases chars.len() - i,
    {
        let c = chars[i];
        if c == '.' {
            if after_dot {
                assert(!well_shaped(s@));
                return false;
            }
            after_dot = true;
        } else if '0' <= c && c <= '9' {
            after_dot = false;
        } else {
            assert(!well_shaped(s@)) by {
                assert(!(is_digit(s@[i as int]) || s@[i as int] == '.'));
            }
            return false;
        }
        i = i + 1;
    }
    !after_dot
}

/// The place of the last dot before `end`, if there is one.
fn last_dot_before(chars: &Vec<char>, end: usize) -> (r: Option<usize>)
    requires
        end <= chars@.len(),
    ensures
        match r {
            None => last_dot(chars@.take(end as int)) is None,
            Some(p) => last_dot(chars@.take(end as int)) == Some(p as int),
        },
{
    let mut i: usize = end;
    while i > 0
        invariant
            i <= end <= chars@.len(),
            last_dot(chars@.take(end as int)) == last_dot(chars@.take(i as int)),
        decreases i,
    {
        assert(chars@.take(i as int).drop_last() == chars@.take(i - 1));
        i = i - 1;
        if chars[i] == '.' {
            return Some(i);
        }
    }
    None
}

/// The id and all ids above it, from the id itself up to the child of the
/// root.
pub fn ancestors(ctx_id: &str) -> (r: Vec<String>)
    ensures
        r@.map_values(|id: String| id@) == spec_ancestors(ctx_id@),
{
    let chars = chars_of(ctx_id);
    let mut result: Vec<String> = Vec::new();
    let mut end: usize = chars.len();
    let ghost mut below: Seq<Seq<char>> = Seq::empty();
    assert(ctx_id@.take(end as int) == ctx_id@);
    loop
        invariant_except_break
            chars@ == ctx_id@,
            end <= chars@.len(),
            below == result@.map_values(|id: String| id@),
            spec_ancestors(ctx_id@) == below + spec_ancestors(ctx_id@.take(end as int)),
        ensures
            result@.map_values(|id: String| id@) == spec_ancestors(ctx_id@),
        decreases end,
    {
        let ghost current = ctx_id@.take(end as int);
        let id = ctx_id.substring_char(0, end).to_owned();
        result.push(id);
        proof {
            lemma_last_dot(current);
            assert(id@ == current);
            assert(result@.map_values(|id: String| id@) == below.push(current));
        }
        match last_dot_before(&chars, end) {
            Some(p) => {
                proof {
                    assert(current.take(p as int) == ctx_id@.take(p as int));
                    assert(below + (seq![current] + spec_ancestors(ctx_id@.take(p as int)))
                        == below.push(current) + spec_ancestors(ctx_id@.take(p as int)));
                    below = below.push(current);
                }
                end = p;
            },
            None => {
                assert(below + seq![current] == below.push(current));
                break ;
            },
        }
    }
    result
}

/// The list of ancestors starts with the text itself; what comes after it are the
/// beginnings of the text that end before one of its dots, every one of them, the
/// longest first.
pub proof fn lemma_ancestors_are_cut_at_the_dots(s: Seq<char>)
    ensures
        spec_ancestors(s).len() > 0,
        spec_ancestors(s)[0] == s,
        forall|k: int|
            0 < k < spec_ancestors(s).len() ==> {
                let id = #[trigger] spec_ancestors(s)[k];
                id.len() < s.len() && s[id.len() as int] == '.' && id == s.take(id.len() as int)
            },
        forall|p: int|
            0 <= p < s.len() && #[trigger] s[p] == '.' ==> spec_ancestors(s).contains(s.take(p)),
        forall|k: int, m: int|
            0 <= k < m < spec_ancestors(s).len() ==> (#[trigger] spec_ancestors(s)[k]).len() > (
            #[trigger] spec_ancestors(s)[m]).len(),
    decreases s.len(),
{
    lemma_last_dot(s);
    let all = spec_ancestors(s);
    match last_dot(s) {
        None => {
            assert(all == seq![s]);
        },
        Some(q) => {
            let head = s.take(q);
            let rest = spec_ancestors(head);
            lemma_ancestors_are_cut_at_the_dots(head);
            assert(all == seq![s] + rest);
            assert forall|k: int| 0 < k < all.len() implies {
                let id = #[trigger] all[k];
                id.len() < s.len() && s[id.len() as int] == '.' && id == s.take(id.len() as int)
            } by {
                let id = all[k];
                assert(id == rest[k - 1]);
                if k > 1 {
                    assert(head.take(id.len() as int) == s.take(id.len() as int));
                    assert(head[id.len() as int] == s[id.len() as int]);
                }
            }
            assert forall|p: int| 0 <= p < s.len() && #[trigger] s[p] == '.' implies all.contains(
                s.take(p),
            ) by {
                if p < q {
                    assert(head[p] == '.');
                    assert(head.take(p) == s.take(p));
                    let k = choose|k: int| 0 <= k < rest.len() && rest[k] == s.take(p);
                    assert(all[k + 1] == s.take(p));
                } else {
                    assert(p == q);
                    assert(all[1] == s.take(p));
                }
            }
            assert forall|k: int, m: int| 0 <= k < m < all.len() implies (#[trigger] all[k]).len()
                > (#[trigger] all[m]).len() by {
                assert(all[m] == rest[m - 1]);
                if k > 0 {
                    assert(all[k] == rest[k - 1]);
                } else if m > 1 {
                    assert(rest[0].len() > rest[m - 1].len());
                }
            }
        },
    }
}

/// The list of ancestors starts with the id itself.
pub proof fn lemma_ancestors_start_with_the_id(s: Seq<char>)
    ensures
        spec_ancestors(s).len() > 0,
        spec_ancestors(s)[0] == s,
{
}

/// The list of ancestors ends with the top-level segment of the id.
pub proof fn lemma_ancestors_end_at_the_top(s: Seq<char>)
    ensures
        spec_ancestors(s).last() == segments(s)[0],
    decreases s.len(),
{
    lemma_last_dot(s);
    if let Some(p) = last_dot(s) {
        let head = s.take(p);
        lemma_ancestors_end_at_the_top(head);
        lemma_ancestors_start_with_the_id(head);
        lemma_ancestors_match_segments(head);
    }
}

/// An id has as many ancestors, itself counted, as it has segments.
pub proof fn lemma_ancestors_match_segments(s: Seq<char>)
    ensures
        spec_ancestors(s).len() == segments(s).len(),
        segments(s).len() > 0,
    decreases s.len(),
{
    lemma_last_dot(s);
    if let Some(p) = last_dot(s) {
        lemma_ancestors_match_segments(s.take(p));
    }
}

/// Every id above a valid id is valid.
pub proof fn lemma_ancestors_of_valid_are_valid(s: Seq<char>, k: int)
    requires
        valid_ctx_id(s),
        0 <= k < spec_ancestors(s).len(),
    ensures
        valid_ctx_id(spec_ancestors(s)[k]),
    decreases s.len(),
{
    lemma_last_dot(s);
    if k > 0 {
        let p = last_dot(s)->0;
        let head = s.take(p);
        assert(segments(s) == segments(head).push(s.skip(p + 1)));
        assert forall|i: int| 0 <= i < segments(head).len() implies is_number(
            #[trigger] segments(head)[i],
        ) by {
            assert(segments(s)[i] == segments(head)[i]);
        }
        lemma_ancestors_of_valid_are_valid(head, k - 1);
        assert(spec_ancestors(s)[k] == spec_ancestors(head)[k - 1]);
    }
}

/// The ancestors of an ancestor are the rest of the list.
pub proof fn lemma_ancestors_nest(s: Seq<char>, k: int)
    requires
        0 <= k < spec_ancestors(s).len(),
    ensures
        spec_ancestors(spec_ancestors(s)[k]) == spec_ancestors(s).skip(k),
    decreases s.len(),
{
    lemma_last_dot(s);
    if k == 0 {
        assert(spec_ancestors(s).skip(0) == spec_ancestors(s));
    } else {
        let head = s.take(last_dot(s)->0);
        lemma_ancestors_nest(head, k - 1);
        assert(spec_ancestors(s)[k] == spec_ancestors(head)[k - 1]);
        assert(spec_ancestors(s).skip(k) == spec_ancestors(head).skip(k - 1));
    }
}

} // verus!
