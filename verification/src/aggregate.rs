//! Accumulation across documents: one bucket per tag string, in the order in
//! which the tag strings were first seen.

use vstd::prelude::*;
use crate::duration::{format_duration, formatted, TimeDuration};
use crate::tags::{join_comma, joined};

verus! {

/// The time tracked under one tag string, and the documents it came from.
#[derive(Debug, Clone)]
pub struct Bucket {
    /// The tag string that the bucket stands for.
    pub tag: String,
    /// The durations of its records, added counter by counter.
    pub duration: TimeDuration,
    /// The label of the document of each record, in the order of the records.
    pub sources: Vec<String>,
}

/// A `Bucket` as plain values.
pub struct BucketView {
    pub tag: Seq<char>,
    pub duration: TimeDuration,
    pub sources: Seq<Seq<char>>,
}

impl View for Bucket {
    type V = BucketView;

    open spec fn view(&self) -> BucketView {
        BucketView { tag: self.tag@, duration: self.duration, sources: self.sources.deep_view() }
    }
}

/// A record with the label of its document.
#[derive(Debug, Clone)]
pub struct SourcedRecord {
    pub tag: String,
    pub duration: TimeDuration,
    pub source: String,
}

/// A `SourcedRecord` as plain values.
pub struct SourcedRecordView {
    pub tag: Seq<char>,
    pub duration: TimeDuration,
    pub source: Seq<char>,
}

impl View for SourcedRecord {
    type V = SourcedRecordView;

    open spec fn view(&self) -> SourcedRecordView {
        SourcedRecordView { tag: self.tag@, duration: self.duration, source: self.source@ }
    }
}

/// The views of a sequence of buckets.
pub open spec fn bucket_views(buckets: Seq<Bucket>) -> Seq<BucketView> {
    Seq::new(buckets.len(), |i: int| buckets[i]@)
}

/// The views of a sequence of records.
pub open spec fn sourced_views(records: Seq<SourcedRecord>) -> Seq<SourcedRecordView> {
    Seq::new(records.len(), |i: int| records[i]@)
}

/// The index of the first bucket for `tag`; the number of buckets where
/// there is none.
pub open spec fn position(buckets: Seq<BucketView>, tag: Seq<char>) -> int
    decreases buckets.len(),
{
    if buckets.len() == 0 {
        0
    } else if buckets[0].tag == tag {
        0
    } else {
        1 + position(buckets.drop_first(), tag)
    }
}

/// No two buckets stand for the same tag string.
pub open spec fn distinct_tags(buckets: Seq<BucketView>) -> bool {
    forall|i: int, j: int|
        0 <= i < j < buckets.len() ==> (#[trigger] buckets[i]).tag != (#[trigger] buckets[j]).tag
}

/// A bucket with one more record: the duration added, the source appended.
pub open spec fn bucket_with(bucket: BucketView, record: SourcedRecordView) -> BucketView {
    BucketView {
        tag: bucket.tag,
        duration: bucket.duration.plus(record.duration),
        sources: bucket.sources.push(record.source),
    }
}

/// The bucket of a tag string before its first record.
pub open spec fn empty_bucket(tag: Seq<char>) -> BucketView {
    BucketView { tag, duration: TimeDuration::zero(), sources: Seq::empty() }
}

/// The buckets after one more record: it goes to the bucket of its tag
/// string, or to a new bucket behind the others.
pub open spec fn add_record(buckets: Seq<BucketView>, record: SourcedRecordView) -> Seq<
    BucketView,
> {
    let i = position(buckets, record.tag);
    if 0 <= i < buckets.len() {
        buckets.update(i, bucket_with(buckets[i], record))
    } else {
        buckets.push(bucket_with(empty_bucket(record.tag), record))
    }
}

/// The buckets of a sequence of records, taken in order.
pub open spec fn accumulated(records: Seq<SourcedRecordView>) -> Seq<BucketView>
    decreases records.len(),
{
    if records.len() == 0 {
        Seq::empty()
    } else {
        add_record(accumulated(records.drop_last()), records.last())
    }
}

/// `position` is the first index whose bucket has the tag.
pub proof fn lemma_position(buckets: Seq<BucketView>, tag: Seq<char>, i: int)
    requires
        0 <= i <= buckets.len(),
        forall|k: int| 0 <= k < i ==> (#[trigger] buckets[k]).tag != tag,
        i == buckets.len() || buckets[i].tag == tag,
    ensures
        position(buckets, tag) == i,
    decreases buckets.len(),
{
    if buckets.len() > 0 && i > 0 {
        assert(buckets[0].tag != tag);
        let rest = buckets.drop_first();
        assert forall|k: int| 0 <= k < i - 1 implies (#[trigger] rest[k]).tag != tag by {
            assert(rest[k] == buckets[k + 1]);
        }
        lemma_position(rest, tag, i - 1);
    }
}

/// `position` is an index of a bucket with the tag, or the number of buckets
/// where no bucket has it.
pub proof fn lemma_position_bounds(buckets: Seq<BucketView>, tag: Seq<char>)
    ensures
        0 <= position(buckets, tag) <= buckets.len(),
        position(buckets, tag) < buckets.len() ==> buckets[position(buckets, tag)].tag == tag,
        forall|k: int| 0 <= k < position(buckets, tag) ==> (#[trigger] buckets[k]).tag != tag,
    decreases buckets.len(),
{
    if buckets.len() > 0 && buckets[0].tag != tag {
        let rest = buckets.drop_first();
        lemma_position_bounds(rest, tag);
        assert forall|k: int| 0 <= k < position(buckets, tag) implies (#[trigger] buckets[k]).tag
            != tag by {
            if k > 0 {
                assert(buckets[k] == rest[k - 1]);
            }
        }
    }
}

/// Adding a record keeps the tag strings of the buckets distinct, keeps every
/// bucket in its place, and makes at most one new bucket, at the end.
pub proof fn lemma_add_record_keeps_order(buckets: Seq<BucketView>, record: SourcedRecordView)
    requires
        distinct_tags(buckets),
    ensures
        distinct_tags(add_record(buckets, record)),
        add_record(buckets, record).len() >= buckets.len(),
        forall|k: int|
            0 <= k < buckets.len() ==> (#[trigger] add_record(buckets, record)[k]).tag
                == buckets[k].tag,
{
    lemma_position_bounds(buckets, record.tag);
    let after = add_record(buckets, record);
    let i = position(buckets, record.tag);
    assert forall|a: int, b: int| 0 <= a < b < after.len() implies (#[trigger] after[a]).tag != (
    #[trigger] after[b]).tag by {
        if i < buckets.len() {
            assert(after[a].tag == buckets[a].tag);
            assert(after[b].tag == buckets[b].tag);
        } else {
            if b < buckets.len() {
                assert(after[a] == buckets[a]);
                assert(after[b] == buckets[b]);
            } else {
                assert(after[a] == buckets[a]);
                assert(after[b].tag == record.tag);
            }
        }
    }
}

/// The buckets of any records have distinct tag strings.
pub proof fn lemma_accumulated_distinct(records: Seq<SourcedRecordView>)
    ensures
        distinct_tags(accumulated(records)),
    decreases records.len(),
{
    if records.len() > 0 {
        lemma_accumulated_distinct(records.drop_last());
        lemma_add_record_keeps_order(accumulated(records.drop_last()), records.last());
    }
}

/// Some record has the tag string.
pub open spec fn has_tag(records: Seq<SourcedRecordView>, tag: Seq<char>) -> bool {
    exists|i: int| 0 <= i < records.len() && (#[trigger] records[i]).tag == tag
}

/// The durations of the records with the tag string, added in order.
pub open spec fn tag_total(records: Seq<SourcedRecordView>, tag: Seq<char>) -> TimeDuration
    decreases records.len(),
{
    if records.len() == 0 {
        TimeDuration::zero()
    } else if records.last().tag == tag {
        tag_total(records.drop_last(), tag).plus(records.last().duration)
    } else {
        tag_total(records.drop_last(), tag)
    }
}

/// The documents of the records with the tag string, in order, one entry
/// for each record.
pub open spec fn tag_sources(records: Seq<SourcedRecordView>, tag: Seq<char>) -> Seq<Seq<char>>
    decreases records.len(),
{
    if records.len() == 0 {
        Seq::empty()
    } else if records.last().tag == tag {
        tag_sources(records.drop_last(), tag).push(records.last().source)
    } else {
        tag_sources(records.drop_last(), tag)
    }
}

/// There is a bucket for a tag string exactly if some record has it, and
/// that bucket holds the sum of the durations of these records and their
/// documents in order. Without such a record both are empty.
pub proof fn lemma_accumulated_per_tag(records: Seq<SourcedRecordView>, tag: Seq<char>)
    ensures
        0 <= position(accumulated(records), tag) <= accumulated(records).len(),
        has_tag(records, tag) <==> position(accumulated(records), tag) < accumulated(
            records,
        ).len(),
        has_tag(records, tag) ==> {
            let bucket = accumulated(records)[position(accumulated(records), tag)];
            &&& bucket.tag == tag
            &&& bucket.duration == tag_total(records, tag)
            &&& bucket.sources == tag_sources(records, tag)
        },
        !has_tag(records, tag) ==> tag_total(records, tag) == TimeDuration::zero() && tag_sources(
            records,
            tag,
        ) == Seq::<Seq<char>>::empty(),
    decreases records.len(),
{
    let buckets = accumulated(records);
    if records.len() == 0 {
        assert(!has_tag(records, tag));
    } else {
        let front = records.drop_last();
        let record = records.last();
        let before = accumulated(front);
        lemma_accumulated_per_tag(front, tag);
        lemma_position_bounds(before, tag);
        lemma_position_bounds(before, record.tag);
        let i = position(before, tag);
        let j = position(before, record.tag);
        assert(has_tag(records, tag) <==> has_tag(front, tag) || record.tag == tag) by {
            if has_tag(front, tag) {
                let k = choose|k: int| 0 <= k < front.len() && (#[trigger] front[k]).tag == tag;
                assert(records[k] == front[k]);
            }
            if record.tag == tag {
                assert(records[records.len() - 1].tag == tag);
            }
            if has_tag(records, tag) {
                let k = choose|k: int| 0 <= k < records.len() && (#[trigger] records[k]).tag == tag;
                if k < front.len() {
                    assert(front[k] == records[k]);
                }
            }
        }
        if i < before.len() {
            assert forall|k: int| 0 <= k < i implies (#[trigger] buckets[k]).tag != tag by {
                assert(before[k].tag != tag);
            }
            lemma_position(buckets, tag, i);
        } else if record.tag == tag {
            assert forall|k: int| 0 <= k < i implies (#[trigger] buckets[k]).tag != tag by {
                assert(before[k].tag != tag);
            }
            lemma_position(buckets, tag, i);
        } else {
            assert forall|k: int| 0 <= k < buckets.len() implies (#[trigger] buckets[k]).tag
                != tag by {
                if k < before.len() {
                    assert(before[k].tag != tag);
                }
            }
            lemma_position(buckets, tag, buckets.len() as int);
        }
    }
}

/// The index of the first record with the tag string; the number of
/// records where there is none.
pub open spec fn first_seen(records: Seq<SourcedRecordView>, tag: Seq<char>) -> int
    decreases records.len(),
{
    if records.len() == 0 {
        0
    } else if records[0].tag == tag {
        0
    } else {
        1 + first_seen(records.drop_first(), tag)
    }
}

/// `first_seen` is the first index whose record has the tag string.
proof fn lemma_first_seen(records: Seq<SourcedRecordView>, tag: Seq<char>, i: int)
    requires
        0 <= i <= records.len(),
        forall|k: int| 0 <= k < i ==> (#[trigger] records[k]).tag != tag,
        i == records.len() || records[i].tag == tag,
    ensures
        first_seen(records, tag) == i,
    decreases records.len(),
{
    if records.len() > 0 && i > 0 {
        assert(records[0].tag != tag);
        let rest = records.drop_first();
        assert forall|k: int| 0 <= k < i - 1 implies (#[trigger] rest[k]).tag != tag by {
            assert(rest[k] == records[k + 1]);
        }
        lemma_first_seen(rest, tag, i - 1);
    }
}

/// `first_seen` is an index of a record with the tag string, or the number
/// of records where no record has it.
proof fn lemma_first_seen_bounds(records: Seq<SourcedRecordView>, tag: Seq<char>)
    ensures
        0 <= first_seen(records, tag) <= records.len(),
        first_seen(records, tag) < records.len() ==> records[first_seen(records, tag)].tag == tag,
        forall|k: int| 0 <= k < first_seen(records, tag) ==> (#[trigger] records[k]).tag != tag,
    decreases records.len(),
{
    if records.len() > 0 && records[0].tag != tag {
        let rest = records.drop_first();
        lemma_first_seen_bounds(rest, tag);
        assert forall|k: int| 0 <= k < first_seen(records, tag) implies (#[trigger] records[k]).tag
            != tag by {
            if k > 0 {
                assert(records[k] == rest[k - 1]);
            }
        }
    }
}

/// Where a tag string is first seen once one more record is there.
proof fn lemma_first_seen_push(
    front: Seq<SourcedRecordView>,
    record: SourcedRecordView,
    tag: Seq<char>,
)
    ensures
        first_seen(front, tag) < front.len() ==> first_seen(front.push(record), tag) == first_seen(
            front,
            tag,
        ),
        first_seen(front, tag) >= front.len() && record.tag == tag ==> first_seen(
            front.push(record),
            tag,
        ) == front.len(),
{
    lemma_first_seen_bounds(front, tag);
    let all = front.push(record);
    let i = first_seen(front, tag);
    assert forall|k: int| 0 <= k < i implies (#[trigger] all[k]).tag != tag by {
        assert(all[k] == front[k]);
    }
    if i < front.len() {
        assert(all[i] == front[i]);
        lemma_first_seen(all, tag, i);
    } else if record.tag == tag {
        lemma_first_seen(all, tag, i);
    }
}

/// The buckets stand in the order in which their tag strings are first seen
/// among the records.
pub proof fn lemma_first_seen_order(records: Seq<SourcedRecordView>, i: int, j: int)
    requires
        0 <= i < j < accumulated(records).len(),
    ensures
        0 <= first_seen(records, accumulated(records)[i].tag) < first_seen(
            records,
            accumulated(records)[j].tag,
        ) < records.len(),
    decreases records.len(),
{
    if records.len() > 0 {
        let front = records.drop_last();
        let record = records.last();
        let before = accumulated(front);
        let after = accumulated(records);
        assert(front.push(record) =~= records);
        lemma_position_bounds(before, record.tag);
        lemma_accumulated_per_tag(front, after[i].tag);
        lemma_accumulated_per_tag(front, after[j].tag);
        lemma_first_seen_bounds(front, after[i].tag);
        lemma_first_seen_bounds(front, after[j].tag);
        lemma_first_seen_push(front, record, after[i].tag);
        lemma_first_seen_push(front, record, after[j].tag);
        assert(after[i].tag == before[i].tag);
        lemma_position_bounds(before, before[i].tag);
        assert(position(before, before[i].tag) <= i);
        if j < before.len() {
            assert(after[j].tag == before[j].tag);
            lemma_position_bounds(before, before[j].tag);
            assert(position(before, before[j].tag) <= j);
            lemma_first_seen_order(front, i, j);
        } else {
            assert(after[j].tag == record.tag);
            assert(position(before, record.tag) == before.len());
        }
    }
}

/// Adds one record to the buckets.
pub fn add_to_buckets(buckets: &mut Vec<Bucket>, record: SourcedRecord)
    ensures
        bucket_views(final(buckets)@) == add_record(bucket_views(old(buckets)@), record@),
{
    let ghost before = bucket_views(buckets@);
    let mut i: usize = 0;
    while i < buckets.len()
        invariant
            i <= buckets.len(),
            *buckets == *old(buckets),
            before == bucket_views(buckets@),
            forall|k: int| 0 <= k < i ==> (#[trigger] before[k]).tag != record.tag@,
        decreases buckets.len() - i,
    {
        if buckets[i].tag == record.tag {
            proof {
                assert(before[i as int] == buckets@[i as int]@);
                lemma_position(before, record.tag@, i as int);
            }
            let found: Bucket = buckets.remove(i);
            let mut duration: TimeDuration = found.duration;
            duration.add(&record.duration);
            let mut sources: Vec<String> = found.sources;
            let ghost sources_before = sources.deep_view();
            sources.push(record.source);
            assert(sources.deep_view() =~= sources_before.push(record.source@));
            let changed: Bucket = Bucket { tag: found.tag, duration, sources };
            buckets.insert(i, changed);
            assert(bucket_views(buckets@) =~= add_record(before, record@));
            return ;
        }
        assert(before[i as int] == buckets@[i as int]@);
        i = i + 1;
    }
    proof {
        lemma_position(before, record.tag@, before.len() as int);
    }
    let mut duration: TimeDuration = TimeDuration { hours: 0, minutes: 0, seconds: 0 };
    duration.add(&record.duration);
    let mut sources: Vec<String> = Vec::new();
    sources.push(record.source);
    assert(sources.deep_view() =~= Seq::<Seq<char>>::empty().push(record.source@));
    buckets.push(Bucket { tag: record.tag, duration, sources });
    assert(bucket_views(buckets@) =~= add_record(before, record@));
}

/// Sums the durations of the records per tag string, counter by counter and
/// without carrying, and lists for each tag string the documents of its
/// records, one entry per record. The buckets come in the order in which
/// their tag strings were first seen.
pub fn accumulate(records: &Vec<SourcedRecord>) -> (r: Vec<Bucket>)
    ensures
        bucket_views(r@) == accumulated(sourced_views(records@)),
        distinct_tags(bucket_views(r@)),
{
    let mut buckets: Vec<Bucket> = Vec::new();
    let ghost all = sourced_views(records@);
    let mut i: usize = 0;
    proof {
        assert(all.take(0) =~= Seq::empty());
        assert(bucket_views(buckets@) =~= Seq::empty());
    }
    while i < records.len()
        invariant
            i <= records.len(),
            all == sourced_views(records@),
            bucket_views(buckets@) == accumulated(all.take(i as int)),
        decreases records.len() - i,
    {
        let record: SourcedRecord = SourcedRecord {
            tag: records[i].tag.clone(),
            duration: records[i].duration,
            source: records[i].source.clone(),
        };
        proof {
            assert(all.take(i + 1).drop_last() =~= all.take(i as int));
            assert(all.take(i + 1).last() == records@[i as int]@);
        }
        add_to_buckets(&mut buckets, record);
        i = i + 1;
    }
    proof {
        assert(all.take(records.len() as int) =~= all);
        lemma_accumulated_distinct(all);
    }
    buckets
}

/// The output row of a record: its tag string, its duration in minimal form,
/// and the label of its document. Nothing is quoted or escaped.
pub fn record_row(record: &SourcedRecord) -> (r: (String, String, String))
    ensures
        r.0@ == record.tag@,
        r.1@ == formatted(record.duration),
        r.2@ == record.source@,
{
    (record.tag.clone(), format_duration(&record.duration), record.source.clone())
}

/// The output row of a bucket: its tag string, its duration in minimal form,
/// and the labels of its documents joined by commas. Nothing is quoted or
/// escaped.
pub fn bucket_row(bucket: &Bucket) -> (r: (String, String, String))
    ensures
        r.0@ == bucket.tag@,
        r.1@ == formatted(bucket.duration),
        r.2@ == joined(bucket.sources.deep_view()),
{
    (bucket.tag.clone(), format_duration(&bucket.duration), join_comma(&bucket.sources))
}

} // verus!
