//! Queries over parsed records: selection by category or provider type, and
//! the sorted, duplicate-free lists of the categories and provider types.

use vstd::prelude::*;

use crate::record::{PriceRecord, RecordFields, record_views};
use crate::text::{
    lemma_lex_lt_irreflexive, lemma_lex_lt_total, lemma_lex_lt_transitive, lex_less, lex_lt, views,
};

verus! {

/// The two record fields by which the queries select and list.
enum Field {
    Category,
    ProviderType,
}

spec fn field_of(r: RecordFields, field: Field) -> Seq<char> {
    match field {
        Field::Category => r.category,
        Field::ProviderType => r.provider_type,
    }
}

fn field_ref<'a>(r: &'a PriceRecord, field: &Field) -> (value: &'a String)
    ensures
        value@ == field_of(r@, *field),
{
    match field {
        Field::Category => &r.category,
        Field::ProviderType => &r.provider_type,
    }
}

/// The records of `rs` whose category is `category`, in their order.
pub open spec fn with_category(rs: Seq<RecordFields>, category: Seq<char>) -> Seq<RecordFields> {
    rs.filter(|r: RecordFields| r.category == category)
}

/// The records of `rs` whose provider type is `provider_type`, in their order.
pub open spec fn with_provider_type(rs: Seq<RecordFields>, provider_type: Seq<char>) -> Seq<
    RecordFields,
> {
    rs.filter(|r: RecordFields| r.provider_type == provider_type)
}

/// The category of each record of `rs`.
pub open spec fn categories_of(rs: Seq<RecordFields>) -> Seq<Seq<char>> {
    rs.map_values(|r: RecordFields| r.category)
}

/// The provider type of each record of `rs`.
pub open spec fn provider_types_of(rs: Seq<RecordFields>) -> Seq<Seq<char>> {
    rs.map_values(|r: RecordFields| r.provider_type)
}

/// Each element of `s` comes strictly before every later one: `s` is sorted
/// and holds no element twice.
pub open spec fn strictly_sorted(s: Seq<Seq<char>>) -> bool {
    forall|i: int, j: int| 0 <= i < j < s.len() ==> lex_lt(#[trigger] s[i], #[trigger] s[j])
}

fn select(records: &[PriceRecord], field: Field, value: &str) -> (found: Vec<PriceRecord>)
    ensures
        record_views(found@) == record_views(records@).filter(
            |r: RecordFields| field_of(r, field) == value@,
        ),
{
    let ghost pred = |r: RecordFields| field_of(r, field) == value@;
    let ghost rs = record_views(records@);
    let wanted = value.to_owned();
    let mut found: Vec<PriceRecord> = Vec::new();
    let mut i: usize = 0;
    proof {
        reveal(Seq::filter);
    }
    assert(rs.take(0) =~= Seq::<RecordFields>::empty());
    assert(record_views(found@) =~= rs.take(0).filter(pred));
    while i < records.len()
        invariant
            i <= records@.len(),
            rs == record_views(records@),
            wanted@ == value@,
            pred == (|r: RecordFields| field_of(r, field) == value@),
            record_views(found@) == rs.take(i as int).filter(pred),
        decreases records@.len() - i,
    {
        let ghost before = record_views(found@);
        assert(rs.take(i + 1) =~= rs.take(i as int).push(rs[i as int]));
        proof {
            rs.take(i as int).lemma_filter_push(rs[i as int], pred);
        }
        if *field_ref(&records[i], &field) == wanted {
            let copy = records[i].duplicate();
            found.push(copy);
            assert(record_views(found@) =~= before.push(copy@));
        }
        i = i + 1;
    }
    assert(rs.take(records@.len() as int) =~= rs);
    found
}

/// The records whose category is `category` (e.g. `"vitrine"`,
/// `"ecommerce"`), in the order of `records`.
pub fn by_category(records: &[PriceRecord], category: &str) -> (found: Vec<PriceRecord>)
    ensures
        record_views(found@) == with_category(record_views(records@), category@),
        forall|i: int| 0 <= i < found@.len() ==> (#[trigger] found@[i]).category@ == category@,
{
    let found = select(records, Field::Category, category);
    assert((|r: RecordFields| field_of(r, Field::Category) == category@) =~= (|r: RecordFields|
        r.category == category@));
    proof {
        lemma_filtered_all_match(record_views(records@), |r: RecordFields| r.category == category@);
        assert forall|i: int| 0 <= i < found@.len() implies (#[trigger] found@[i]).category@
            == category@ by {
            assert(record_views(found@)[i] == found@[i]@);
        }
    }
    found
}

/// The records whose provider type is `provider_type` (e.g. `"freelance"`),
/// in the order of `records`.
pub fn by_provider_type(records: &[PriceRecord], provider_type: &str) -> (found: Vec<PriceRecord>)
    ensures
        record_views(found@) == with_provider_type(record_views(records@), provider_type@),
        forall|i: int|
            0 <= i < found@.len() ==> (#[trigger] found@[i]).provider_type@ == provider_type@,
{
    let found = select(records, Field::ProviderType, provider_type);
    assert((|r: RecordFields| field_of(r, Field::ProviderType) == provider_type@) =~= (|
        r: RecordFields,
    | r.provider_type == provider_type@));
    proof {
        lemma_filtered_all_match(
            record_views(records@),
            |r: RecordFields| r.provider_type == provider_type@,
        );
        assert forall|i: int| 0 <= i < found@.len() implies (#[trigger] found@[i]).provider_type@
            == provider_type@ by {
            assert(record_views(found@)[i] == found@[i]@);
        }
    }
    found
}

/// Every element that a filter keeps satisfies its predicate.
proof fn lemma_filtered_all_match(rs: Seq<RecordFields>, pred: spec_fn(RecordFields) -> bool)
    ensures
        forall|i: int| 0 <= i < rs.filter(pred).len() ==> pred(#[trigger] rs.filter(pred)[i]),
{
    broadcast use vstd::seq_lib::group_filter_ensures;
}


/// Puts `v` into the strictly sorted `out` at its place, unless `out`
/// already holds it.
fn insert_sorted(out: &mut Vec<String>, v: String)
    requires
        strictly_sorted(views(old(out)@)),
    ensures
        strictly_sorted(views(final(out)@)),
        views(final(out)@).to_set() == views(old(out)@).to_set().insert(v@),
{
    let ghost old_views = views(out@);
    let mut j: usize = 0;
    while j < out.len() && lex_less(out[j].as_str(), v.as_str())
        invariant
            j <= out@.len(),
            views(out@) == old_views,
            strictly_sorted(old_views),
            forall|k: int| 0 <= k < j ==> lex_lt(#[trigger] old_views[k], v@),
        decreases out@.len() - j,
    {
        assert(old_views[j as int] == out@[j as int]@);
        j = j + 1;
    }
    if j < out.len() && out[j] == v {
        assert(old_views[j as int] == v@);
        assert(old_views.to_set() =~= old_views.to_set().insert(v@));
        return;
    }
    if j < out.len() {
        assert(old_views[j as int] == out@[j as int]@);
        proof {
            lemma_lex_lt_total(old_views[j as int], v@);
        }
        assert(lex_lt(v@, old_views[j as int]));
    }
    let ghost vv = v@;
    out.insert(j, v);
    let ghost new_views = old_views.insert(j as int, vv);
    assert(views(out@) =~= new_views);
    assert forall|a: int, b: int| 0 <= a < b < new_views.len() implies lex_lt(
        #[trigger] new_views[a],
        #[trigger] new_views[b],
    ) by {
        if b < j {
            assert(lex_lt(old_views[a], old_views[b]));
        } else if b == j {
            assert(lex_lt(old_views[a], vv));
        } else if a < j {
            assert(lex_lt(old_views[a], old_views[b - 1]));
        } else if a == j {
            if b - 1 > j {
                assert(lex_lt(old_views[j as int], old_views[b - 1]));
                lemma_lex_lt_transitive(vv, old_views[j as int], old_views[b - 1]);
            }
        } else {
            assert(lex_lt(old_views[a - 1], old_views[b - 1]));
        }
    }
    assert forall|x: Seq<char>| new_views.contains(x) <==> old_views.to_set().insert(vv).contains(x) by {
        if new_views.contains(x) {
            let k = choose|k: int| 0 <= k < new_views.len() && new_views[k] == x;
            if k < j {
                assert(old_views[k] == x);
            } else if k > j {
                assert(old_views[k - 1] == x);
            }
        }
        if old_views.contains(x) {
            let k = choose|k: int| 0 <= k < old_views.len() && old_views[k] == x;
            if k < j {
                assert(new_views[k] == x);
            } else {
                assert(new_views[k + 1] == x);
            }
        }
        if x == vv {
            assert(new_views[j as int] == x);
        }
    }
    assert(new_views.to_set() =~= old_views.to_set().insert(vv));
}

/// The distinct values of `field` over `records`, sorted.
fn distinct_sorted(records: &[PriceRecord], field: Field) -> (out: Vec<String>)
    ensures
        strictly_sorted(views(out@)),
        views(out@).to_set() == record_views(records@).map_values(
            |r: RecordFields| field_of(r, field),
        ).to_set(),
{
    let ghost g = |r: RecordFields| field_of(r, field);
    let ghost rs = record_views(records@);
    let mut out: Vec<String> = Vec::new();
    let mut i: usize = 0;
    assert(views(out@) =~= Seq::<Seq<char>>::empty());
    assert(rs.take(0).map_values(g) =~= Seq::<Seq<char>>::empty());
    while i < records.len()
        invariant
            i <= records@.len(),
            rs == record_views(records@),
            g == (|r: RecordFields| field_of(r, field)),
            strictly_sorted(views(out@)),
            views(out@).to_set() == rs.take(i as int).map_values(g).to_set(),
        decreases records@.len() - i,
    {
        let value = field_ref(&records[i], &field).clone();
        assert(rs.take(i + 1).map_values(g) =~= rs.take(i as int).map_values(g).push(value@));
        proof {
            rs.take(i as int).map_values(g).lemma_push_to_set_commute(value@);
        }
        insert_sorted(&mut out, value);
        i = i + 1;
    }
    assert(rs.take(records@.len() as int) =~= rs);
    out
}

/// The distinct service categories present in `records`, sorted
/// alphabetically.
pub fn categories(records: &[PriceRecord]) -> (cats: Vec<String>)
    ensures
        strictly_sorted(views(cats@)),
        views(cats@).to_set() == categories_of(record_views(records@)).to_set(),
{
    let cats = distinct_sorted(records, Field::Category);
    assert(record_views(records@).map_values(|r: RecordFields| field_of(r, Field::Category))
        =~= categories_of(record_views(records@)));
    cats
}

/// The distinct provider types present in `records`, sorted alphabetically.
pub fn provider_types(records: &[PriceRecord]) -> (types: Vec<String>)
    ensures
        strictly_sorted(views(types@)),
        views(types@).to_set() == provider_types_of(record_views(records@)).to_set(),
{
    let types = distinct_sorted(records, Field::ProviderType);
    assert(record_views(records@).map_values(|r: RecordFields| field_of(r, Field::ProviderType))
        =~= provider_types_of(record_views(records@)));
    types
}


/// A strictly sorted list is determined by its elements: two strictly sorted
/// lists that hold the same elements are the same list. So the lists that
/// `categories` and `provider_types` return are the only sorted,
/// duplicate-free lists of what the records hold.
pub proof fn lemma_strictly_sorted_unique(a: Seq<Seq<char>>, b: Seq<Seq<char>>)
    requires
        strictly_sorted(a),
        strictly_sorted(b),
        a.to_set() == b.to_set(),
    ensures
        a == b,
    decreases a.len(),
{
    if a.len() == 0 {
        if b.len() > 0 {
            assert(b.to_set().contains(b[0]));
        }
        assert(a =~= b);
    } else {
        assert(a.to_set().contains(a[0]));
        assert(b.len() > 0);
        assert(b.to_set().contains(b[0]));
        let k = choose|k: int| 0 <= k < b.len() && b[k] == a[0];
        let m = choose|m: int| 0 <= m < a.len() && a[m] == b[0];
        if k > 0 {
            assert(lex_lt(b[0], b[k]));
            if m == 0 {
                lemma_lex_lt_irreflexive(b[0]);
            } else {
                assert(lex_lt(a[0], a[m]));
                lemma_lex_lt_total(a[0], b[0]);
            }
        }
        assert(a[0] == b[0]);
        let a1 = a.drop_first();
        let b1 = b.drop_first();
        assert forall|x: Seq<char>| a1.contains(x) <==> b1.contains(x) by {
            if a1.contains(x) {
                let i = choose|i: int| 0 <= i < a1.len() && a1[i] == x;
                assert(a[i + 1] == x);
                assert(lex_lt(a[0], a[i + 1]));
                lemma_lex_lt_irreflexive(x);
                assert(a.to_set().contains(x));
                let j = choose|j: int| 0 <= j < b.len() && b[j] == x;
                assert(j != 0);
                assert(b1[j - 1] == x);
            }
            if b1.contains(x) {
                let i = choose|i: int| 0 <= i < b1.len() && b1[i] == x;
                assert(b[i + 1] == x);
                assert(lex_lt(b[0], b[i + 1]));
                lemma_lex_lt_irreflexive(x);
                assert(b.to_set().contains(x));
                let j = choose|j: int| 0 <= j < a.len() && a[j] == x;
                assert(j != 0);
                assert(a1[j - 1] == x);
            }
        }
        assert(a1.to_set() =~= b1.to_set());
        lemma_strictly_sorted_unique(a1, b1);
        assert(a =~= b) by {
            assert forall|i: int| 0 <= i < a.len() implies a[i] == b[i] by {
                if i > 0 {
                    assert(a[i] == a1[i - 1]);
                    assert(b[i] == b1[i - 1]);
                }
            }
        }
    }
}

/// Selecting by a category finds records exactly when that category is
/// among those the records hold, that is, among those `categories` lists;
/// an unknown category selects nothing.
pub proof fn lemma_category_selects_iff_listed(rs: Seq<RecordFields>, category: Seq<char>)
    ensures
        with_category(rs, category).len() > 0 <==> categories_of(rs).to_set().contains(category),
        !categories_of(rs).to_set().contains(category) ==> with_category(rs, category) =~= Seq::<
            RecordFields,
        >::empty(),
{
    broadcast use vstd::seq_lib::group_filter_ensures;

    let pred = |r: RecordFields| r.category == category;
    let found = rs.filter(pred);
    if categories_of(rs).to_set().contains(category) {
        let i = choose|i: int| 0 <= i < rs.len() && categories_of(rs)[i] == category;
        assert(pred(rs[i]));
        assert(found.contains(rs[i]));
    }
    if found.len() > 0 {
        assert(pred(found[0]));
        assert(found.contains(found[0]));
        rs.lemma_filter_contains_rev(pred, found[0]);
        let i = choose|i: int| 0 <= i < rs.len() && rs[i] == found[0];
        assert(categories_of(rs)[i] == category);
        assert(categories_of(rs).contains(category));
    }
}

/// Selecting by a provider type finds records exactly when that provider
/// type is among those `provider_types` lists; an unknown one selects
/// nothing.
pub proof fn lemma_provider_type_selects_iff_listed(
    rs: Seq<RecordFields>,
    provider_type: Seq<char>,
)
    ensures
        with_provider_type(rs, provider_type).len() > 0 <==> provider_types_of(
            rs,
        ).to_set().contains(provider_type),
        !provider_types_of(rs).to_set().contains(provider_type) ==> with_provider_type(
            rs,
            provider_type,
        ) =~= Seq::<RecordFields>::empty(),
{
    broadcast use vstd::seq_lib::group_filter_ensures;

    let pred = |r: RecordFields| r.provider_type == provider_type;
    let found = rs.filter(pred);
    if provider_types_of(rs).to_set().contains(provider_type) {
        let i = choose|i: int| 0 <= i < rs.len() && provider_types_of(rs)[i] == provider_type;
        assert(pred(rs[i]));
        assert(found.contains(rs[i]));
    }
    if found.len() > 0 {
        assert(pred(found[0]));
        assert(found.contains(found[0]));
        rs.lemma_filter_contains_rev(pred, found[0]);
        let i = choose|i: int| 0 <= i < rs.len() && rs[i] == found[0];
        assert(provider_types_of(rs)[i] == provider_type);
        assert(provider_types_of(rs).contains(provider_type));
    }
}


/// The sum, over the categories `cs`, of how many records of `rs` have each.
pub open spec fn category_total(rs: Seq<RecordFields>, cs: Seq<Seq<char>>) -> nat
    decreases cs.len(),
{
    if cs.len() == 0 {
        0
    } else {
        category_total(rs, cs.drop_last()) + with_category(rs, cs.last()).len()
    }
}

/// The sum, over the provider types `ps`, of how many records of `rs` have
/// each.
pub open spec fn provider_type_total(rs: Seq<RecordFields>, ps: Seq<Seq<char>>) -> nat
    decreases ps.len(),
{
    if ps.len() == 0 {
        0
    } else {
        provider_type_total(rs, ps.drop_last()) + with_provider_type(rs, ps.last()).len()
    }
}

/// The records of `rs` whose `key` is `value`.
spec fn keyed(rs: Seq<RecordFields>, key: spec_fn(RecordFields) -> Seq<char>, value: Seq<char>) -> Seq<
    RecordFields,
> {
    rs.filter(|r: RecordFields| key(r) == value)
}

/// The sum, over `vs`, of how many records of `rs` have each value as `key`.
spec fn keyed_total(
    rs: Seq<RecordFields>,
    key: spec_fn(RecordFields) -> Seq<char>,
    vs: Seq<Seq<char>>,
) -> nat
    decreases vs.len(),
{
    if vs.len() == 0 {
        0
    } else {
        keyed_total(rs, key, vs.drop_last()) + keyed(rs, key, vs.last()).len()
    }
}

/// How many times `v` occurs in `vs`.
spec fn occurrences(vs: Seq<Seq<char>>, v: Seq<char>) -> nat
    decreases vs.len(),
{
    if vs.len() == 0 {
        0
    } else {
        occurrences(vs.drop_last(), v) + if vs.last() == v {
            1nat
        } else {
            0nat
        }
    }
}

proof fn lemma_keyed_total_empty(key: spec_fn(RecordFields) -> Seq<char>, vs: Seq<Seq<char>>)
    ensures
        keyed_total(Seq::<RecordFields>::empty(), key, vs) == 0,
    decreases vs.len(),
{
    reveal(Seq::filter);
    if vs.len() > 0 {
        lemma_keyed_total_empty(key, vs.drop_last());
    }
}

/// One more record adds one to the total for each occurrence of its value.
proof fn lemma_keyed_total_push(
    rs: Seq<RecordFields>,
    x: RecordFields,
    key: spec_fn(RecordFields) -> Seq<char>,
    vs: Seq<Seq<char>>,
)
    ensures
        keyed_total(rs.push(x), key, vs) == keyed_total(rs, key, vs) + occurrences(vs, key(x)),
    decreases vs.len(),
{
    if vs.len() > 0 {
        lemma_keyed_total_push(rs, x, key, vs.drop_last());
        rs.lemma_filter_push(x, |r: RecordFields| key(r) == vs.last());
    }
}

proof fn lemma_occurrences_absent(vs: Seq<Seq<char>>, v: Seq<char>)
    requires
        !vs.contains(v),
    ensures
        occurrences(vs, v) == 0,
    decreases vs.len(),
{
    if vs.len() > 0 {
        assert(vs.last() == vs[vs.len() - 1]);
        assert forall|i: int| 0 <= i < vs.drop_last().len() implies vs.drop_last()[i] != v by {
            assert(vs.drop_last()[i] == vs[i]);
        }
        lemma_occurrences_absent(vs.drop_last(), v);
    }
}

/// A value of a strictly sorted list occurs in it once.
proof fn lemma_occurrences_once(vs: Seq<Seq<char>>, v: Seq<char>)
    requires
        strictly_sorted(vs),
        vs.contains(v),
    ensures
        occurrences(vs, v) == 1,
    decreases vs.len(),
{
    let init = vs.drop_last();
    assert(strictly_sorted(init)) by {
        assert forall|i: int, j: int| 0 <= i < j < init.len() implies lex_lt(
            #[trigger] init[i],
            #[trigger] init[j],
        ) by {
            assert(lex_lt(vs[i], vs[j]));
        }
    }
    if vs.last() == v {
        assert forall|i: int| 0 <= i < init.len() implies init[i] != v by {
            assert(lex_lt(vs[i], vs[vs.len() - 1]));
            lemma_lex_lt_irreflexive(v);
        }
        lemma_occurrences_absent(init, v);
    } else {
        let k = choose|k: int| 0 <= k < vs.len() && vs[k] == v;
        assert(k < vs.len() - 1);
        assert(init[k] == v);
        lemma_occurrences_once(init, v);
    }
}

/// When every value that some record has as `key` occurs exactly once in
/// `vs`, the counts of the records per value of `vs` add up to all records.
proof fn lemma_keyed_total_partitions(
    rs: Seq<RecordFields>,
    key: spec_fn(RecordFields) -> Seq<char>,
    vs: Seq<Seq<char>>,
)
    requires
        strictly_sorted(vs),
        forall|i: int| 0 <= i < rs.len() ==> vs.contains(key(#[trigger] rs[i])),
    ensures
        keyed_total(rs, key, vs) == rs.len(),
    decreases rs.len(),
{
    if rs.len() == 0 {
        assert(rs =~= Seq::<RecordFields>::empty());
        lemma_keyed_total_empty(key, vs);
    } else {
        let init = rs.drop_last();
        let x = rs.last();
        assert forall|i: int| 0 <= i < init.len() implies vs.contains(key(#[trigger] init[i])) by {
            assert(init[i] == rs[i]);
        }
        lemma_keyed_total_partitions(init, key, vs);
        assert(vs.contains(key(rs[rs.len() - 1])));
        lemma_occurrences_once(vs, key(x));
        lemma_keyed_total_push(init, x, key, vs);
        assert(init.push(x) =~= rs);
    }
}

proof fn lemma_category_total_is_keyed(rs: Seq<RecordFields>, cs: Seq<Seq<char>>)
    ensures
        category_total(rs, cs) == keyed_total(rs, |r: RecordFields| r.category, cs),
    decreases cs.len(),
{
    if cs.len() > 0 {
        lemma_category_total_is_keyed(rs, cs.drop_last());
        let key = |r: RecordFields| r.category;
        assert((|r: RecordFields| key(r) == cs.last()) =~= (|r: RecordFields| r.category
            == cs.last()));
    }
}

proof fn lemma_provider_type_total_is_keyed(rs: Seq<RecordFields>, ps: Seq<Seq<char>>)
    ensures
        provider_type_total(rs, ps) == keyed_total(rs, |r: RecordFields| r.provider_type, ps),
    decreases ps.len(),
{
    if ps.len() > 0 {
        lemma_provider_type_total_is_keyed(rs, ps.drop_last());
        let key = |r: RecordFields| r.provider_type;
        assert((|r: RecordFields| key(r) == ps.last()) =~= (|r: RecordFields| r.provider_type
            == ps.last()));
    }
}

/// The categories partition the records: over the list that `categories`
/// returns, the numbers of records that `by_category` selects add up to the
/// number of records.
pub proof fn lemma_categories_partition_records(rs: Seq<RecordFields>, cs: Seq<Seq<char>>)
    requires
        strictly_sorted(cs),
        cs.to_set() == categories_of(rs).to_set(),
    ensures
        category_total(rs, cs) == rs.len(),
{
    let key = |r: RecordFields| r.category;
    assert forall|i: int| 0 <= i < rs.len() implies cs.contains(key(#[trigger] rs[i])) by {
        assert(categories_of(rs)[i] == rs[i].category);
        assert(categories_of(rs).to_set().contains(rs[i].category));
    }
    lemma_keyed_total_partitions(rs, key, cs);
    lemma_category_total_is_keyed(rs, cs);
}

/// The provider types partition the records: over the list that
/// `provider_types` returns, the numbers of records that `by_provider_type`
/// selects add up to the number of records.
pub proof fn lemma_provider_types_partition_records(rs: Seq<RecordFields>, ps: Seq<Seq<char>>)
    requires
        strictly_sorted(ps),
        ps.to_set() == provider_types_of(rs).to_set(),
    ensures
        provider_type_total(rs, ps) == rs.len(),
{
    let key = |r: RecordFields| r.provider_type;
    assert forall|i: int| 0 <= i < rs.len() implies ps.contains(key(#[trigger] rs[i])) by {
        assert(provider_types_of(rs)[i] == rs[i].provider_type);
        assert(provider_types_of(rs).to_set().contains(rs[i].provider_type));
    }
    lemma_keyed_total_partitions(rs, key, ps);
    lemma_provider_type_total_is_keyed(rs, ps);
}

} // verus!
