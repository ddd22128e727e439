//! Price records and the parsing of the dataset's CSV text into them.

use vstd::prelude::*;
use vstd::string::*;

use crate::text::{
    is_blank, is_white_space, lemma_lines_final_line_ending, lemma_trim_removes_outer_white_space, join_commas, join_with, lemma_trim_empty_iff_blank, lines_of, lines_text, split_on,
    split_text, starts_with, starts_with_text, trim, trim_text, views,
};

verus! {

/// A single price observation of the dataset, its fields as the CSV line
/// gives them.
///
/// The three price fields hold the price as written in the dataset (in
/// EUR), with surrounding whitespace removed; turning that text into a
/// number is left to the caller.
#[derive(Debug, Clone, PartialEq)]
pub struct PriceRecord {
    /// Service category, e.g. `"vitrine"`, `"ecommerce"`, `"blog"`.
    pub category: String,
    /// Provider type, e.g. `"freelance"`, `"agence_guide"`, `"builder_saas"`.
    pub provider_type: String,
    /// Pricing model, e.g. `"forfait_unique"`, `"abonnement_mensuel"`, `"tjm"`.
    pub pricing_model: String,
    /// Minimum observed price, in EUR, as written.
    pub price_min_eur: String,
    /// Maximum observed price, in EUR, as written.
    pub price_max_eur: String,
    /// Typical (representative) price, in EUR, as written.
    pub typical_price_eur: String,
    /// Region the price applies to (e.g. `"France"`, `"Paris"`).
    pub region: String,
    /// Human-readable label for the source; may contain commas.
    pub source_label: String,
    /// URL of the public source the price was read from.
    pub source_url: String,
    /// Date the price was recorded, `YYYY-MM-DD`.
    pub date_recorded: String,
    /// Free-text notes; may contain commas.
    pub notes: String,
}

/// The contents of a `PriceRecord`, field by field.
pub struct RecordFields {
    pub category: Seq<char>,
    pub provider_type: Seq<char>,
    pub pricing_model: Seq<char>,
    pub price_min_eur: Seq<char>,
    pub price_max_eur: Seq<char>,
    pub typical_price_eur: Seq<char>,
    pub region: Seq<char>,
    pub source_label: Seq<char>,
    pub source_url: Seq<char>,
    pub date_recorded: Seq<char>,
    pub notes: Seq<char>,
}

impl View for PriceRecord {
    type V = RecordFields;

    open spec fn view(&self) -> RecordFields {
        RecordFields {
            category: self.category@,
            provider_type: self.provider_type@,
            pricing_model: self.pricing_model@,
            price_min_eur: self.price_min_eur@,
            price_max_eur: self.price_max_eur@,
            typical_price_eur: self.typical_price_eur@,
            region: self.region@,
            source_label: self.source_label@,
            source_url: self.source_url@,
            date_recorded: self.date_recorded@,
            notes: self.notes@,
        }
    }
}

impl PriceRecord {
    /// A record with the same contents as this one.
    pub fn duplicate(&self) -> (copy: PriceRecord)
        ensures
            copy@ == self@,
    {
        PriceRecord {
            category: self.category.clone(),
            provider_type: self.provider_type.clone(),
            pricing_model: self.pricing_model.clone(),
            price_min_eur: self.price_min_eur.clone(),
            price_max_eur: self.price_max_eur.clone(),
            typical_price_eur: self.typical_price_eur.clone(),
            region: self.region.clone(),
            source_label: self.source_label.clone(),
            source_url: self.source_url.clone(),
            date_recorded: self.date_recorded.clone(),
            notes: self.notes.clone(),
        }
    }
}

/// The contents of each record of `v`.
pub open spec fn record_views(v: Seq<PriceRecord>) -> Seq<RecordFields> {
    v.map_values(|r: PriceRecord| r@)
}

/// The prefix by which the source URL is recognised.
pub open spec fn http() -> Seq<char> {
    seq!['h', 't', 't', 'p']
}

/// `s` neither begins nor ends with whitespace.
pub open spec fn no_outer_white_space(s: Seq<char>) -> bool {
    s.len() > 0 ==> !is_white_space(s[0]) && !is_white_space(s.last())
}

/// The index of the first field at or after `from` that starts with `http`.
pub open spec fn url_field_from(parts: Seq<Seq<char>>, from: int) -> Option<int>
    decreases parts.len() - from,
{
    if from < 0 || from >= parts.len() {
        None
    } else if starts_with(parts[from], http()) {
        Some(from)
    } else {
        url_field_from(parts, from + 1)
    }
}

/// The field that `url_field_from` finds starts with `http` and lies at or
/// after where the search began.
pub proof fn lemma_url_field_from(parts: Seq<Seq<char>>, from: int)
    ensures
        url_field_from(parts, from) matches Some(k) ==> from <= k < parts.len() && starts_with(
            parts[k],
            http(),
        ),
    decreases parts.len() - from,
{
    if 0 <= from < parts.len() && !starts_with(parts[from], http()) {
        lemma_url_field_from(parts, from + 1);
    }
}

/// The number of comma-separated fields that a record line has at least.
pub const MIN_FIELDS: usize = 11;

/// The field at which the free-text source label begins.
pub const LABEL_FIELD: usize = 7;

/// The record that a CSV line holds, if it holds one.
///
/// The line is split at every comma. The first seven fields are category,
/// provider type, pricing model, the three prices and the region. The source
/// URL is the first field from the eighth on that starts with `http`; the
/// fields between the region and the URL, joined again with commas, are the
/// source label; the field after the URL is the date, and all that follow
/// it, joined again with commas, are the notes. A blank line, one with fewer
/// than eleven fields, one without such a URL field and one where the URL is
/// the last field hold no record.
pub open spec fn row_fields(line: Seq<char>) -> Option<RecordFields> {
    let parts = split_on(line, ',');
    if is_blank(line) || parts.len() < MIN_FIELDS {
        None
    } else {
        match url_field_from(parts, LABEL_FIELD as int) {
            None => None,
            Some(u) => if u + 1 >= parts.len() {
                None
            } else {
                Some(
                    RecordFields {
                        category: parts[0],
                        provider_type: parts[1],
                        pricing_model: parts[2],
                        price_min_eur: trim(parts[3]),
                        price_max_eur: trim(parts[4]),
                        typical_price_eur: trim(parts[5]),
                        region: parts[6],
                        source_label: join_with(parts.subrange(LABEL_FIELD as int, u), ','),
                        source_url: parts[u],
                        date_recorded: parts[u + 1],
                        notes: join_with(parts.subrange(u + 2, parts.len() as int), ','),
                    },
                )
            },
        }
    }
}

/// Finds the source URL field: the first field from the label field on that
/// starts with `http`.
fn find_url_field(parts: &Vec<String>) -> (u: Option<usize>)
    ensures
        match u {
            Some(k) => url_field_from(views(parts@), LABEL_FIELD as int) == Some(k as int),
            None => url_field_from(views(parts@), LABEL_FIELD as int) is None,
        },
        u matches Some(k) ==> LABEL_FIELD <= k < parts@.len(),
{
    let ghost ps = views(parts@);
    let mut k: usize = LABEL_FIELD;
    proof {
        reveal_strlit("http");
    }
    assert("http"@ =~= http());
    while k < parts.len()
        invariant
            ps == views(parts@),
            "http"@ == http(),
            LABEL_FIELD <= k,
            url_field_from(ps, LABEL_FIELD as int) == url_field_from(ps, k as int),
        decreases parts@.len() - k,
    {
        if starts_with_text(parts[k].as_str(), "http") {
            return Some(k);
        }
        k = k + 1;
    }
    None
}

/// Parses one CSV line of the dataset into a record.
///
/// Returns `None` for lines that hold no record (see `row_fields`); never
/// fails otherwise. Commas inside the source label and the notes are kept:
/// the source URL is found by its `http` prefix, not by its position.
pub fn parse_row(line: &str) -> (r: Option<PriceRecord>)
    ensures
        r is Some <==> row_fields(line@) is Some,
        r matches Some(rec) ==> row_fields(line@) == Some(rec@),
        r matches Some(rec) ==> starts_with(rec.source_url@, http()),
        r matches Some(rec) ==> {
            let parts = split_on(line@, ',');
            &&& parts.len() >= MIN_FIELDS
            &&& rec.category@ == parts[0]
            &&& rec.provider_type@ == parts[1]
            &&& rec.pricing_model@ == parts[2]
            &&& rec.price_min_eur@ == trim(parts[3])
            &&& rec.price_max_eur@ == trim(parts[4])
            &&& rec.typical_price_eur@ == trim(parts[5])
            &&& rec.region@ == parts[6]
        },
        r matches Some(rec) ==> no_outer_white_space(rec.price_min_eur@) && no_outer_white_space(
            rec.price_max_eur@,
        ) && no_outer_white_space(rec.typical_price_eur@),
{
    proof {
        lemma_trim_empty_iff_blank(line@);
    }
    if trim_text(line).as_str().unicode_len() == 0 {
        return None;
    }
    let parts = split_text(line, ',');
    let ghost ps = views(parts@);
    if parts.len() < MIN_FIELDS {
        return None;
    }
    let url_idx = match find_url_field(&parts) {
        Some(k) => k,
        None => return None,
    };
    if url_idx >= parts.len() - 1 {
        return None;
    }
    let notes_start = if url_idx + 2 < parts.len() {
        url_idx + 2
    } else {
        parts.len()
    };
    let source_label = join_commas(&parts, LABEL_FIELD, url_idx);
    let notes = join_commas(&parts, notes_start, parts.len());
    let rec = PriceRecord {
        category: parts[0].clone(),
        provider_type: parts[1].clone(),
        pricing_model: parts[2].clone(),
        price_min_eur: trim_text(parts[3].as_str()),
        price_max_eur: trim_text(parts[4].as_str()),
        typical_price_eur: trim_text(parts[5].as_str()),
        region: parts[6].clone(),
        source_label,
        source_url: parts[url_idx].clone(),
        date_recorded: parts[url_idx + 1].clone(),
        notes,
    };
    assert(ps[url_idx as int] == parts@[url_idx as int]@);
    proof {
        lemma_url_field_from(ps, LABEL_FIELD as int);
        lemma_trim_removes_outer_white_space(ps[3]);
        lemma_trim_removes_outer_white_space(ps[4]);
        lemma_trim_removes_outer_white_space(ps[5]);
    }
    Some(rec)
}


/// The lines of the dataset below its header line.
pub open spec fn data_lines(csv: Seq<char>) -> Seq<Seq<char>> {
    let lines = lines_of(csv);
    if lines.len() == 0 {
        lines
    } else {
        lines.drop_first()
    }
}

/// The records of a dataset: those of its lines below the header that hold
/// one, in the order of the lines.
pub open spec fn dataset_records(csv: Seq<char>) -> Seq<RecordFields> {
    data_lines(csv).filter_map(|line: Seq<char>| row_fields(line))
}

/// Every price record of the dataset whose CSV text is `csv`: the first line
/// is the header and is skipped, lines that hold no record are left out.
pub fn all(csv: &str) -> (records: Vec<PriceRecord>)
    ensures
        record_views(records@) == dataset_records(csv@),
        lines_of(csv@).len() == 0 ==> records@.len() == 0,
        lines_of(csv@).len() > 0 ==> record_views(records@) == lines_of(csv@).drop_first().filter_map(
            |line: Seq<char>| row_fields(line),
        ),
        forall|k: int|
            0 <= k < records@.len() ==> starts_with((#[trigger] records@[k]).source_url@, http()),
{
    let lines = lines_text(csv);
    let ghost f = |line: Seq<char>| row_fields(line);
    let ghost data = data_lines(csv@);
    let mut records: Vec<PriceRecord> = Vec::new();
    if lines.len() == 0 {
        assert(record_views(records@) =~= Seq::<RecordFields>::empty());
        return records;
    }
    assert(data =~= views(lines@).drop_first());
    assert(data.take(0) =~= Seq::<Seq<char>>::empty());
    assert(record_views(records@) =~= data.take(0).filter_map(f));
    let mut i: usize = 1;
    while i < lines.len()
        invariant
            1 <= i <= lines@.len(),
            data == views(lines@).drop_first(),
            f == (|line: Seq<char>| row_fields(line)),
            record_views(records@) == data.take(i - 1).filter_map(f),
            forall|k: int|
                0 <= k < records@.len() ==> starts_with(
                    (#[trigger] records@[k]).source_url@,
                    http(),
                ),
        decreases lines@.len() - i,
    {
        let parsed = parse_row(lines[i].as_str());
        proof {
            data.lemma_filter_map_take_succ(f, i - 1);
            assert(data[i - 1] == lines@[i as int]@);
        }
        let ghost before = record_views(records@);
        match parsed {
            Some(rec) => {
                records.push(rec);
                assert(record_views(records@) =~= before + seq![rec@]);
            },
            None => {},
        }
        i = i + 1;
    }
    assert(data.take(data.len() as int) =~= data);
    records
}


/// A final line ending changes nothing: the dataset with one more newline (or
/// carriage return and newline) at its end has the same records, unless it
/// already ended with a newline (or, for a bare newline, a carriage return).
/// So every data line that holds a record gives one, the last one included.
pub proof fn lemma_final_line_ending_keeps_records(csv: Seq<char>)
    requires
        csv.len() > 0,
        csv.last() != '\n',
    ensures
        dataset_records(csv.push('\r').push('\n')) == dataset_records(csv),
        csv.last() != '\r' ==> dataset_records(csv.push('\n')) == dataset_records(csv),
{
    lemma_lines_final_line_ending(csv);
}

} // verus!
