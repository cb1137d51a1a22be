//! Tag strings: the tags found in a text, the work item in scope put in
//! front where the text does not name it, optionally in lexicographic order,
//! joined by commas.

use vstd::prelude::*;
use vstd::string::*;
use vstd::seq_lib::to_multiset_build;
use crate::matching::{find_all, regex_find_all};
use crate::text::{chars_of, code_of};

verus! {

/// `#` and one or more letters, digits, underscores or hyphens.
pub const TAG_PATTERN: &'static str = "#[a-zA-Z0-9_-]+|#pbi-\\d+";

/// Lexicographic order on texts, character by character; a text comes after
/// each of its proper prefixes.
pub open spec fn lex_le(a: Seq<char>, b: Seq<char>) -> bool
    decreases a.len(),
{
    if a.len() == 0 {
        true
    } else if b.len() == 0 {
        false
    } else if a[0] != b[0] {
        (a[0] as int) < (b[0] as int)
    } else {
        lex_le(a.drop_first(), b.drop_first())
    }
}

/// Each tag is followed by one that is not smaller.
pub open spec fn is_sorted(tags: Seq<Seq<char>>) -> bool {
    forall|i: int| 0 <= i < tags.len() - 1 ==> lex_le(#[trigger] tags[i], tags[i + 1])
}

/// A sorted sequence with one more tag, put behind the last tag that is not
/// greater.
pub open spec fn insert_sorted(tags: Seq<Seq<char>>, tag: Seq<char>) -> Seq<Seq<char>>
    decreases tags.len(),
{
    if tags.len() == 0 {
        seq![tag]
    } else if lex_le(tags.last(), tag) {
        tags.push(tag)
    } else {
        insert_sorted(tags.drop_last(), tag).push(tags.last())
    }
}

/// The tags in lexicographic order, a tag that occurs twice kept twice.
pub open spec fn sorted(tags: Seq<Seq<char>>) -> Seq<Seq<char>>
    decreases tags.len(),
{
    if tags.len() == 0 {
        tags
    } else {
        insert_sorted(sorted(tags.drop_last()), tags.last())
    }
}

/// The tags with the work item in scope in front, unless there is none or
/// the tags already hold it.
pub open spec fn tags_with_context(tags: Seq<Seq<char>>, context: Option<Seq<char>>) -> Seq<
    Seq<char>,
> {
    match context {
        Some(tag) => if tags.contains(tag) {
            tags
        } else {
            seq![tag] + tags
        },
        None => tags,
    }
}

/// The parts with a comma between each two; empty for no parts.
pub open spec fn joined(parts: Seq<Seq<char>>) -> Seq<char>
    decreases parts.len(),
{
    if parts.len() == 0 {
        Seq::empty()
    } else if parts.len() == 1 {
        parts[0]
    } else {
        joined(parts.drop_last()) + seq![','] + parts.last()
    }
}

/// The tag string of a line: the tags found, the work item in scope added,
/// sorted where asked, joined by commas. No tags and no work item give the
/// empty string.
pub open spec fn tag_string(tags: Seq<Seq<char>>, context: Option<Seq<char>>, sort: bool) -> Seq<
    char,
> {
    if sort {
        joined(sorted(tags_with_context(tags, context)))
    } else {
        joined(tags_with_context(tags, context))
    }
}

/// The tags that the tag pattern finds in a text, in order of appearance;
/// none where the pattern is not accepted.
pub open spec fn found_tags(text: Seq<char>) -> Seq<Seq<char>> {
    match regex_find_all(TAG_PATTERN@, text) {
        Some(tags) => tags,
        None => Seq::empty(),
    }
}

/// Whether `a` comes before `b` in lexicographic order, or equals it.
pub fn lex_le_exec(a: &str, b: &str) -> (r: bool)
    ensures
        r == lex_le(a@, b@),
{
    let left: Vec<char> = chars_of(a);
    let right: Vec<char> = chars_of(b);
    let na: usize = left.len();
    let nb: usize = right.len();
    let mut i: usize = 0;
    proof {
        assert(a@.skip(0) =~= a@);
        assert(b@.skip(0) =~= b@);
    }
    while i < na && i < nb
        invariant
            left@ == a@,
            right@ == b@,
            na == a@.len(),
            nb == b@.len(),
            i <= na,
            i <= nb,
            lex_le(a@, b@) == lex_le(a@.skip(i as int), b@.skip(i as int)),
        decreases na - i,
    {
        let ca: char = left[i];
        let cb: char = right[i];
        proof {
            assert(a@.skip(i as int)[0] == ca);
            assert(b@.skip(i as int)[0] == cb);
            assert(a@.skip(i as int).drop_first() =~= a@.skip(i + 1));
            assert(b@.skip(i as int).drop_first() =~= b@.skip(i + 1));
        }
        if ca != cb {
            return code_of(ca) < code_of(cb);
        }
        i = i + 1;
    }
    i == na
}

/// Where `insert_sorted` puts a tag: behind the last tag that is not greater.
proof fn lemma_insert_sorted_at(tags: Seq<Seq<char>>, tag: Seq<char>, j: int)
    requires
        0 <= j <= tags.len(),
        forall|k: int| j <= k < tags.len() ==> !lex_le(#[trigger] tags[k], tag),
        j == 0 || lex_le(tags[j - 1], tag),
    ensures
        insert_sorted(tags, tag) == tags.insert(j, tag),
    decreases tags.len(),
{
    if tags.len() == 0 {
        assert(seq![tag] =~= tags.insert(j, tag));
    } else if j == tags.len() {
        assert(tags.push(tag) =~= tags.insert(j, tag));
    } else {
        assert(!lex_le(tags[tags.len() - 1], tag));
        lemma_insert_sorted_at(tags.drop_last(), tag, j);
        assert(tags.drop_last().insert(j, tag).push(tags.last()) =~= tags.insert(j, tag));
    }
}

/// Puts the tags in lexicographic order. A tag that occurs twice stays twice.
pub fn sort_tags(tags: Vec<String>) -> (r: Vec<String>)
    ensures
        r.deep_view() == sorted(tags.deep_view()),
        is_sorted(r.deep_view()),
        r.deep_view().to_multiset() == tags.deep_view().to_multiset(),
{
    let mut out: Vec<String> = Vec::new();
    let mut i: usize = 0;
    assert(tags.deep_view().take(0) =~= Seq::empty());
    assert(out.deep_view() =~= Seq::empty());
    while i < tags.len()
        invariant
            i <= tags.len(),
            out.deep_view() == sorted(tags.deep_view().take(i as int)),
        decreases tags.len() - i,
    {
        let tag: String = tags[i].clone();
        let ghost before = out.deep_view();
        let mut j: usize = out.len();
        while j > 0 && !lex_le_exec(out[j - 1].as_str(), tag.as_str())
            invariant
                j <= out.len(),
                before == out.deep_view(),
                forall|k: int| j <= k < before.len() ==> !lex_le(#[trigger] before[k], tag@),
            decreases j,
        {
            j = j - 1;
        }
        out.insert(j, tag);
        proof {
            let all = tags.deep_view();
            assert(all.take(i + 1).drop_last() =~= all.take(i as int));
            assert(all.take(i + 1).last() == tags@[i as int]@);
            lemma_insert_sorted_at(before, tag@, j as int);
            assert(out.deep_view() =~= before.insert(j as int, tag@));
        }
        i = i + 1;
    }
    proof {
        assert(tags.deep_view().take(tags.len() as int) =~= tags.deep_view());
        lemma_sorted_is_sorted(tags.deep_view());
    }
    out
}

/// Puts the work item in scope in front of the tags, unless there is none or
/// one of the tags is that very text.
pub fn with_context(tags: Vec<String>, context: &Option<String>) -> (r: Vec<String>)
    ensures
        r.deep_view() == tags_with_context(tags.deep_view(), context.deep_view()),
{
    match context {
        Some(tag) => {
            let mut i: usize = 0;
            while i < tags.len()
                invariant
                    i <= tags.len(),
                    *context == Some(*tag),
                    forall|k: int| 0 <= k < i ==> (#[trigger] tags.deep_view()[k]) != tag@,
                decreases tags.len() - i,
            {
                if tags[i] == *tag {
                    assert(tags.deep_view()[i as int] == tag@);
                    assert(tags.deep_view().contains(tag@));
                    return tags;
                }
                i = i + 1;
            }
            let ghost before = tags.deep_view();
            assert(!before.contains(tag@));
            let mut out: Vec<String> = tags;
            out.insert(0, tag.clone());
            assert(out.deep_view() =~= seq![tag@] + before);
            out
        },
        None => tags,
    }
}

/// Joins the parts with commas.
pub fn join_comma(parts: &Vec<String>) -> (r: String)
    ensures
        r@ == joined(parts.deep_view()),
{
    proof {
        reveal_strlit(",");
    }
    let mut out: String = String::new();
    let mut i: usize = 0;
    assert(parts.deep_view().take(0) =~= Seq::empty());
    while i < parts.len()
        invariant
            i <= parts.len(),
            out@ == joined(parts.deep_view().take(i as int)),
            ","@ == seq![','],
        decreases parts.len() - i,
    {
        proof {
            let all = parts.deep_view();
            assert(all.take(i + 1).drop_last() =~= all.take(i as int));
            assert(all.take(i + 1).last() == parts@[i as int]@);
            assert(all.take(i + 1)[0] == all[0]);
        }
        if i > 0 {
            out.append(",");
        }
        out.append(parts[i].as_str());
        proof {
            if i == 0 {
                assert(out@ =~= parts@[0]@);
            }
        }
        i = i + 1;
    }
    proof {
        assert(parts.deep_view().take(parts.len() as int) =~= parts.deep_view());
    }
    out
}

/// The tag string of tags already found: the work item in scope added,
/// sorted where asked, joined by commas.
pub fn tag_string_of(tags: Vec<String>, context: &Option<String>, sort: bool) -> (r: String)
    ensures
        r@ == tag_string(tags.deep_view(), context.deep_view(), sort),
{
    let all: Vec<String> = with_context(tags, context);
    if sort {
        let ordered: Vec<String> = sort_tags(all);
        join_comma(&ordered)
    } else {
        join_comma(&all)
    }
}

/// The tag string of a text: its tags in order of appearance, the work item
/// in scope in front where the text does not name it, sorted where asked,
/// joined by commas. A text without tags and without a work item in scope
/// gives the empty string.
pub fn extract_tags(task_text: &str, current_pbi: &Option<String>, sort_tags: bool) -> (r: String)
    ensures
        r@ == tag_string(found_tags(task_text@), current_pbi.deep_view(), sort_tags),
{
    let tags: Vec<String> = match find_all(TAG_PATTERN, task_text) {
        Some(tags) => tags,
        None => Vec::new(),
    };
    assert(tags.deep_view() =~= found_tags(task_text@));
    tag_string_of(tags, current_pbi, sort_tags)
}

/// Of two texts one comes before the other, or they are equal.
pub proof fn lemma_lex_le_total(a: Seq<char>, b: Seq<char>)
    ensures
        lex_le(a, b) || lex_le(b, a),
    decreases a.len(),
{
    if a.len() > 0 && b.len() > 0 {
        if a[0] == b[0] {
            lemma_lex_le_total(a.drop_first(), b.drop_first());
        }
    }
}

/// Inserting a tag into sorted tags gives sorted tags: the same tags and the
/// new one, which ends up last unless the former last tag is greater.
pub proof fn lemma_insert_sorted(tags: Seq<Seq<char>>, tag: Seq<char>)
    requires
        is_sorted(tags),
    ensures
        is_sorted(insert_sorted(tags, tag)),
        insert_sorted(tags, tag).len() == tags.len() + 1,
        insert_sorted(tags, tag).last() == tag || (tags.len() > 0 && insert_sorted(
            tags,
            tag,
        ).last() == tags.last()),
        insert_sorted(tags, tag).to_multiset() == tags.to_multiset().insert(tag),
    decreases tags.len(),
{
    let r = insert_sorted(tags, tag);
    if tags.len() == 0 {
        assert(r =~= tags.push(tag));
        to_multiset_build(tags, tag);
    } else if lex_le(tags.last(), tag) {
        assert forall|i: int| 0 <= i < r.len() - 1 implies lex_le(#[trigger] r[i], r[i + 1]) by {
            if i < tags.len() - 1 {
                assert(lex_le(tags[i], tags[i + 1]));
            }
        }
        to_multiset_build(tags, tag);
    } else {
        let front = tags.drop_last();
        assert forall|i: int| 0 <= i < front.len() - 1 implies lex_le(
            #[trigger] front[i],
            front[i + 1],
        ) by {
            assert(lex_le(tags[i], tags[i + 1]));
        }
        lemma_insert_sorted(front, tag);
        let inner = insert_sorted(front, tag);
        lemma_lex_le_total(tags.last(), tag);
        if inner.last() != tag {
            assert(inner.last() == tags[tags.len() - 2]);
            assert(lex_le(tags[tags.len() - 2], tags[tags.len() - 2 + 1]));
        }
        assert forall|i: int| 0 <= i < r.len() - 1 implies lex_le(#[trigger] r[i], r[i + 1]) by {
            if i < inner.len() - 1 {
                assert(lex_le(inner[i], inner[i + 1]));
            }
        }
        to_multiset_build(inner, tags.last());
        to_multiset_build(front, tags.last());
        assert(front.push(tags.last()) =~= tags);
        assert(r.to_multiset() =~= tags.to_multiset().insert(tag));
    }
}

/// Sorting gives the same tags, each as often as before, in lexicographic
/// order.
pub proof fn lemma_sorted_is_sorted(tags: Seq<Seq<char>>)
    ensures
        is_sorted(sorted(tags)),
        sorted(tags).len() == tags.len(),
        sorted(tags).to_multiset() == tags.to_multiset(),
    decreases tags.len(),
{
    if tags.len() > 0 {
        lemma_sorted_is_sorted(tags.drop_last());
        lemma_insert_sorted(sorted(tags.drop_last()), tags.last());
        to_multiset_build(tags.drop_last(), tags.last());
        assert(tags.drop_last().push(tags.last()) =~= tags);
    }
}

/// Sorting tags that are in order changes nothing.
pub proof fn lemma_sorted_fixed(tags: Seq<Seq<char>>)
    requires
        is_sorted(tags),
    ensures
        sorted(tags) == tags,
    decreases tags.len(),
{
    if tags.len() > 0 {
        let front = tags.drop_last();
        assert forall|i: int| 0 <= i < front.len() - 1 implies lex_le(
            #[trigger] front[i],
            front[i + 1],
        ) by {
            assert(lex_le(tags[i], tags[i + 1]));
        }
        lemma_sorted_fixed(front);
        if front.len() > 0 {
            assert(lex_le(tags[tags.len() - 2], tags[tags.len() - 2 + 1]));
            assert(front.last() == tags[tags.len() - 2]);
        }
        assert(insert_sorted(front, tags.last()) =~= tags);
    }
}

/// Sorting twice is sorting once, so a sorted tag string is its own sorted
/// tag string.
pub proof fn lemma_sort_idempotent(tags: Seq<Seq<char>>)
    ensures
        sorted(sorted(tags)) == sorted(tags),
        joined(sorted(sorted(tags))) == joined(sorted(tags)),
{
    lemma_sorted_is_sorted(tags);
    lemma_sorted_fixed(sorted(tags));
}

/// A work item that the tags already name is not added: the tags, and so the
/// tag string, are what they are without a work item in scope.
pub proof fn lemma_context_present(tags: Seq<Seq<char>>, context: Seq<char>, sort: bool)
    requires
        tags.contains(context),
    ensures
        tags_with_context(tags, Some(context)) == tags,
        tag_string(tags, Some(context), sort) == tag_string(tags, None, sort),
{
}

/// A work item that the tags do not name is added once, in front.
pub proof fn lemma_context_absent(tags: Seq<Seq<char>>, context: Seq<char>)
    requires
        !tags.contains(context),
    ensures
        tags_with_context(tags, Some(context)).len() == tags.len() + 1,
        tags_with_context(tags, Some(context))[0] == context,
        tags_with_context(tags, Some(context)).skip(1) == tags,
{
    assert(tags_with_context(tags, Some(context)).skip(1) =~= tags);
}

} // verus!
