//! What each search filter asks of a row, said of the row and the filter alone.

use crate::db;
use crate::db::{CandidateRow, SearchFilters};
use crate::graph::GraphOptions;
use crate::tags;
use crate::text;
use vstd::prelude::*;

verus! {

/// The quality of the row is not below the one asked for, where one is.
pub open spec fn good_enough(row: CandidateRow, filters: SearchFilters<'_>) -> bool {
    let least = filters.min_quality;
    let own = row.quality_score;
    !least.is_nan() && least.rank() > 0 && !own.is_nan() ==> own.rank() >= least.rank()
}

/// The row is in the category asked for, where one is.
pub open spec fn in_category(row: CandidateRow, filters: SearchFilters<'_>) -> bool {
    filters.category is Some ==> row.category is Some && row.category->0@ == filters.category->0@
}

/// The row has the topic asked for, where one is.
pub open spec fn on_topic(row: CandidateRow, filters: SearchFilters<'_>) -> bool {
    filters.topic is Some ==> row.topic is Some && row.topic->0@ == filters.topic->0@
}

/// The path of the row is among those included, where some are, and not among those
/// excluded.
pub open spec fn at_a_path_asked_for(row: CandidateRow, filters: SearchFilters<'_>) -> bool {
    filters.path_globs is Some ==> {
        let g = filters.path_globs->0;
        &&& g.included is Some ==> db::matched_paths(g.included->0).contains(row.path@)
        &&& g.excluded is Some ==> !db::matched_paths(g.excluded->0).contains(row.path@)
    }
}

/// The row has a tag.
pub open spec fn tagged(row: CandidateRow, tag: Seq<char>) -> bool {
    tags::stored_tags(row.tags_json).contains(tag)
}

/// The row has one of the tags asked for, where some are.
pub open spec fn has_one_tag(row: CandidateRow, filters: SearchFilters<'_>) -> bool {
    filters.tags_any@.len() > 0 ==> exists|i: int|
        0 <= i < filters.tags_any@.len() && tagged(row, (#[trigger] filters.tags_any@[i])@)
}

/// The row has every tag asked for.
pub open spec fn has_all_tags(row: CandidateRow, filters: SearchFilters<'_>) -> bool {
    forall|i: int|
        0 <= i < filters.tags_all@.len() ==> tagged(row, (#[trigger] filters.tags_all@[i])@)
}

/// The row is not older than asked for, where a first day is.
pub open spec fn not_too_old(row: CandidateRow, filters: SearchFilters<'_>) -> bool {
    filters.date_from is Some ==> row.date is Some && !text::precedes(
        row.date->0@,
        filters.date_from->0@,
    )
}

/// The row is not younger than asked for, where a last day is.
pub open spec fn not_too_young(row: CandidateRow, filters: SearchFilters<'_>) -> bool {
    filters.date_to is Some ==> row.date is Some && !text::precedes(
        filters.date_to->0@,
        row.date->0@,
    )
}

/// A row passes exactly where every filter lets it pass, each by itself.
pub proof fn every_filter_counts_by_itself(row: CandidateRow, filters: SearchFilters<'_>)
    ensures
        db::passes(row, filters) ==> good_enough(row, filters),
        db::passes(row, filters) ==> in_category(row, filters),
        db::passes(row, filters) ==> on_topic(row, filters),
        db::passes(row, filters) ==> at_a_path_asked_for(row, filters),
        db::passes(row, filters) ==> has_one_tag(row, filters),
        db::passes(row, filters) ==> has_all_tags(row, filters),
        db::passes(row, filters) ==> not_too_old(row, filters),
        db::passes(row, filters) ==> not_too_young(row, filters),
        good_enough(row, filters) && in_category(row, filters) && on_topic(row, filters)
            && at_a_path_asked_for(row, filters) && has_one_tag(row, filters) && has_all_tags(
            row,
            filters,
        ) && not_too_old(row, filters) && not_too_young(row, filters) ==> db::passes(row, filters),
{
    let own = tags::stored_tags(row.tags_json);
    let any = text::texts(filters.tags_any@);
    let all = text::texts(filters.tags_all@);
    if db::any_tag(own, any) && filters.tags_any@.len() > 0 {
        let i = choose|i: int| 0 <= i < any.len() && own.contains(#[trigger] any[i]);
        assert(tagged(row, filters.tags_any@[i]@));
    }
    if has_one_tag(row, filters) && filters.tags_any@.len() > 0 {
        let i = choose|i: int|
            0 <= i < filters.tags_any@.len() && tagged(row, (#[trigger] filters.tags_any@[i])@);
        assert(own.contains(any[i]));
    }
    if db::all_tags(own, all) {
        assert forall|i: int| 0 <= i < filters.tags_all@.len() implies tagged(
            row,
            (#[trigger] filters.tags_all@[i])@,
        ) by {
            assert(own.contains(all[i]));
        }
    }
    if has_all_tags(row, filters) {
        assert forall|i: int| 0 <= i < all.len() implies own.contains(#[trigger] all[i]) by {
            assert(tagged(row, filters.tags_all@[i]@));
        }
    }
}

/// The filters on the columns come before the tags are read: those on quality, category,
/// topic and path.
pub proof fn columns_come_first(row: CandidateRow, filters: SearchFilters<'_>)
    ensures
        db::passes_columns(row, filters) <==> good_enough(row, filters) && in_category(
            row,
            filters,
        ) && on_topic(row, filters) && at_a_path_asked_for(row, filters),
{
}

/// Filters ask for something exactly where one of them is set; where none is, every row
/// passes.
pub proof fn filters_that_ask_nothing_let_everything_pass(
    row: CandidateRow,
    filters: SearchFilters<'_>,
)
    ensures
        !filters.asks() ==> db::passes(row, filters),
        filters.asks() <==> filters.category is Some || filters.topic is Some || (
        !filters.min_quality.is_nan() && filters.min_quality.rank() > 0)
            || filters.path_globs is Some || filters.tags_any@.len() > 0
            || filters.tags_all@.len() > 0 || filters.date_from is Some
            || filters.date_to is Some,
{
    every_filter_counts_by_itself(row, filters);
}

/// The hit of a row carries what the row holds, column by column.
pub proof fn hits_carry_their_rows(row: CandidateRow)
    ensures
        ({
            let (id, hit) = db::hit_of(row);
            &&& id == row.chunk_id
            &&& hit.score == row.score
            &&& hit.content == row.content@
            &&& hit.heading == text::option_text(row.heading)
            &&& hit.document_id == row.document_id
            &&& hit.path == row.path@
            &&& hit.title == text::option_text(row.title)
            &&& hit.topic == text::option_text(row.topic)
            &&& hit.date == text::option_text(row.date)
            &&& hit.tags == tags::stored_tags(row.tags_json)
            &&& hit.context_text == text::option_text(row.context_text)
        }),
{
}

/// The tags of a row are those that its JSON lists. No JSON, an empty one and one that
/// cannot be read give none; only the last is a failure.
pub proof fn tags_are_those_of_the_json(json: Option<String>)
    ensures
        json is None ==> tags::stored_tags(json).len() == 0 && !tags::malformed_tags(json),
        json matches Some(s) ==> s@.len() == 0 ==> tags::stored_tags(json).len() == 0
            && !tags::malformed_tags(json),
        json matches Some(s) ==> s@.len() > 0 && tags::json_strings(s@) is Some
            ==> tags::stored_tags(json) == tags::json_strings(s@)->0 && !tags::malformed_tags(
            json,
        ),
        json matches Some(s) ==> s@.len() > 0 && tags::json_strings(s@) is None
            ==> tags::stored_tags(json).len() == 0 && tags::malformed_tags(json),
{
}

/// The titles of a topic are the entries of its JSON that are not null, in their order.
pub proof fn titles_are_the_entries_that_are_there(entries: Seq<Option<Seq<char>>>)
    ensures
        tags::present(entries) == entries.filter(|e: Option<Seq<char>>| e is Some).map_values(
            |e: Option<Seq<char>>| e->0,
        ),
    decreases entries.len(),
{
    reveal(Seq::filter);
    let there = |e: Option<Seq<char>>| e is Some;
    let inner = |e: Option<Seq<char>>| e->0;
    if entries.len() > 0 {
        let front = entries.drop_last();
        titles_are_the_entries_that_are_there(front);
        assert(front.filter(there).push(entries.last()).map_values(inner) =~= front.filter(
            there,
        ).map_values(inner).push(inner(entries.last())));
    }
    assert(tags::present(entries) =~= entries.filter(there).map_values(inner));
}

/// Titles are those that the JSON lists; none without JSON, or where it cannot be read.
pub proof fn titles_are_those_of_the_json(json: Option<Seq<char>>)
    ensures
        json is None ==> tags::titles_in(json).len() == 0,
        json is Some && tags::json_optional_strings(json->0) is None ==> tags::titles_in(
            json,
        ).len() == 0,
        json is Some && tags::json_optional_strings(json->0) is Some ==> tags::titles_in(json)
            == tags::present(tags::json_optional_strings(json->0)->0),
{
}

/// A neighbour is looked for among the rows of the category, the topic and the quality of
/// the options, each where it is asked for, and among all of these.
pub proof fn neighbours_are_looked_for_with_the_options(
    o: GraphOptions,
    filters: SearchFilters<'_>,
    row: CandidateRow,
)
    requires
        o.asks_with(filters),
    ensures
        db::passes(row, filters) && o.category is Some ==> row.category is Some
            && row.category->0@ == o.category->0@,
        db::passes(row, filters) && o.topic is Some ==> row.topic is Some && row.topic->0@
            == o.topic->0@,
        db::passes(row, filters) <==> {
            &&& o.category is Some ==> row.category is Some && row.category->0@
                == o.category->0@
            &&& o.topic is Some ==> row.topic is Some && row.topic->0@ == o.topic->0@
            &&& !o.min_quality.is_nan() && o.min_quality.rank() > 0
                && !row.quality_score.is_nan() ==> row.quality_score.rank()
                >= o.min_quality.rank()
        },
{
    every_filter_counts_by_itself(row, filters);
}

} // verus!
