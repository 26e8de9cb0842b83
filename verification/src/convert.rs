//! Writing a table out as text, in the format that a file extension names:
//! CSV, JSON, YAML or TOML. The encoders are those of the `csv`,
//! `serde_json`, `serde_yaml` and `toml` crates.

use crate::store::keys_of;
use crate::table::{row_entries, row_get_index, row_len, table_entries, table_get_index, table_len};
use crate::text::{chars_of, skip_spaces, str_eq, str_views, string_of_range};
use indexmap::IndexMap;
use vstd::prelude::*;
use vstd::string::*;
use vstd::utf8::*;

verus! {

/// A `csv::Writer` that writes into a byte vector. It is held whole: what it
/// has written is known only through `csv_written`.
#[verifier::external_body]
pub struct CsvWriter {
    inner: csv::Writer<Vec<u8>>,
}

/// `csv::Error`, the error of a CSV writer.
#[verifier::external_type_specification]
#[verifier::external_body]
pub struct ExCsvError(csv::Error);

/// `std::io::Error`.
#[verifier::external_type_specification]
#[verifier::external_body]
pub struct ExIoError(std::io::Error);

/// `std::string::FromUtf8Error`, the error of `String::from_utf8`.
#[verifier::external_type_specification]
#[verifier::external_body]
pub struct ExFromUtf8Error(std::string::FromUtf8Error);

/// `serde_json::Error`, the error of the JSON encoder.
#[verifier::external_type_specification]
#[verifier::external_body]
pub struct ExJsonError(serde_json::Error);

/// `serde_yaml::Error`, the error of the YAML encoder.
#[verifier::external_type_specification]
#[verifier::external_body]
pub struct ExYamlError(serde_yaml::Error);

/// `toml::ser::Error`, the error of the TOML encoder.
#[verifier::external_type_specification]
#[verifier::external_body]
pub struct ExTomlError(toml::ser::Error);

/// The records that were written to a CSV writer, each a list of fields.
pub uninterp spec fn csv_written(writer: CsvWriter) -> Seq<Seq<Seq<char>>>;

/// The bytes that the `csv` crate, as it is set up by default, writes for a
/// list of records: fields parted by commas and quoted where needed, each
/// record ended by a line feed.
pub uninterp spec fn csv_bytes(records: Seq<Seq<Seq<char>>>) -> Seq<u8>;

/// `csv::Writer::from_writer` on an empty byte vector: a writer with the
/// default settings, to which nothing was written.
#[verifier::external_body]
fn csv_writer() -> (writer: CsvWriter)
    ensures
        csv_written(writer).len() == 0,
{
    CsvWriter { inner: csv::Writer::from_writer(Vec::new()) }
}

/// `csv::Writer::write_record`. With the default settings all records must
/// have as many fields as the first: a record of another length is refused
/// with an error, any other record is added. Writing into a byte vector does
/// not fail otherwise. The writer is handed back only when the record was
/// written.
#[verifier::external_body]
fn csv_write_record(writer: CsvWriter, record: &Vec<String>) -> (r: Result<CsvWriter, csv::Error>)
    ensures
        match r {
            Ok(after) => csv_written(after) == csv_written(writer).push(str_views(record@)) && (
            csv_written(writer).len() > 0 ==> csv_written(writer)[0].len() == record@.len()),
            Err(_) => csv_written(writer).len() > 0 && csv_written(writer)[0].len()
                != record@.len(),
        },
{
    let mut writer = writer;
    writer.inner.write_record(record)?;
    Ok(writer)
}

/// `csv::Writer::into_inner`: flushes the writer and hands out the bytes of
/// all records written. Flushing into a byte vector does not fail. The
/// bytes are those of the fields, which were strings, with commas, double
/// quotes and line feeds put between and around them, so they are valid
/// UTF-8.
#[verifier::external_body]
fn csv_into_inner(writer: CsvWriter) -> (r: Result<Vec<u8>, std::io::Error>)
    ensures
        match r {
            Ok(bytes) => bytes@ == csv_bytes(csv_written(writer)) && valid_utf8(bytes@),
            Err(_) => false,
        },
{
    writer.inner.into_inner().map_err(|e| e.into_error())
}

/// `String::from_utf8`: the string that the bytes encode, or an error when
/// they are not valid UTF-8.
#[verifier::external_body]
fn string_from_utf8(bytes: Vec<u8>) -> (r: Result<String, std::string::FromUtf8Error>)
    ensures
        match r {
            Ok(text) => valid_utf8(bytes@) && text@ == decode_utf8(bytes@),
            Err(_) => !valid_utf8(bytes@),
        },
{
    String::from_utf8(bytes)
}

/// The text that `serde_json::to_string_pretty` gives for the document made
/// of a version field followed by the rows of a table.
pub uninterp spec fn json_text(
    marker: Seq<char>,
    version: u64,
    rows: Seq<(Seq<char>, Seq<(Seq<char>, Seq<char>)>)>,
) -> Seq<char>;

/// What `serde_yaml::to_string` gives for the document made of a version
/// field followed by the rows of a table: the text, or nothing where the
/// encoder refuses the document.
pub uninterp spec fn yaml_text(
    marker: Seq<char>,
    version: u64,
    rows: Seq<(Seq<char>, Seq<(Seq<char>, Seq<char>)>)>,
) -> Option<Seq<char>>;

/// What `toml::to_string_pretty` gives for the document made of a version
/// field followed by the rows of a table: the text, or nothing where the
/// encoder refuses the document.
pub uninterp spec fn toml_text(
    marker: Seq<char>,
    version: u64,
    rows: Seq<(Seq<char>, Seq<(Seq<char>, Seq<char>)>)>,
) -> Option<Seq<char>>;

/// `serde_json::to_string_pretty` on a JSON object that maps `marker` to the
/// number `version` and then each key of the table, in order, to an object
/// that maps each locale of its row, in order, to its text. The encoder
/// writes into memory and the object holds only strings, string keys and one
/// unsigned number, so it does not fail.
#[verifier::external_body]
fn json_pretty(marker: &str, version: u64, table: &IndexMap<String, IndexMap<String, String>>) -> (r:
    Result<String, serde_json::Error>)
    ensures
        match r {
            Ok(text) => text@ == json_text(marker@, version, table_entries(*table)),
            Err(_) => false,
        },
{
    let head = std::iter::once((marker.to_owned(), serde_json::Value::from(version)));
    let rows = table.iter().map(
        |(k, row)|
            (k.clone(), row.iter().map(|(l, t)| (l.clone(), t.clone())).collect::<serde_json::Value>()),
    );
    serde_json::to_string_pretty(&head.chain(rows).collect::<serde_json::Value>())
}

/// `serde_yaml::to_string` on the same document. Whether the encoder
/// succeeds depends on the document alone.
#[verifier::external_body]
fn yaml_string(marker: &str, version: u64, table: &IndexMap<String, IndexMap<String, String>>) -> (r:
    Result<String, serde_yaml::Error>)
    ensures
        match r {
            Ok(text) => yaml_text(marker@, version, table_entries(*table)) == Some(text@),
            Err(_) => yaml_text(marker@, version, table_entries(*table)) is None,
        },
{
    let head = std::iter::once((marker.to_owned(), serde_json::Value::from(version)));
    let rows = table.iter().map(
        |(k, row)|
            (k.clone(), row.iter().map(|(l, t)| (l.clone(), t.clone())).collect::<serde_json::Value>()),
    );
    serde_yaml::to_string(&head.chain(rows).collect::<serde_json::Value>())
}

/// `toml::to_string_pretty` on the same document. Whether the encoder
/// succeeds depends on the document alone.
#[verifier::external_body]
fn toml_pretty(marker: &str, version: u64, table: &IndexMap<String, IndexMap<String, String>>) -> (r:
    Result<String, toml::ser::Error>)
    ensures
        match r {
            Ok(text) => toml_text(marker@, version, table_entries(*table)) == Some(text@),
            Err(_) => toml_text(marker@, version, table_entries(*table)) is None,
        },
{
    let head = std::iter::once((marker.to_owned(), serde_json::Value::from(version)));
    let rows = table.iter().map(
        |(k, row)|
            (k.clone(), row.iter().map(|(l, t)| (l.clone(), t.clone())).collect::<serde_json::Value>()),
    );
    toml::to_string_pretty(&head.chain(rows).collect::<serde_json::Value>())
}

/// Why a table could not be written out.
#[derive(Debug)]
pub enum ConvertError {
    /// The format is none of `csv`, `json`, `yaml`, `yml` and `toml`.
    UnexpectedFormat(String),
    /// The CSV writer refused a record.
    Csv(csv::Error),
    /// The CSV writer could not hand out its bytes.
    Io(std::io::Error),
    /// The CSV bytes are not valid UTF-8.
    Utf8(std::string::FromUtf8Error),
    /// The JSON encoder failed.
    Json(serde_json::Error),
    /// The YAML encoder failed.
    Yaml(serde_yaml::Error),
    /// The TOML encoder failed.
    Toml(toml::ser::Error),
}

/// The formats in which a table can be written.
#[derive(Clone, Copy, Debug, PartialEq, Eq, Structural)]
pub enum Format {
    Csv,
    Json,
    Yaml,
    Toml,
}

/// The format that a file extension names.
pub open spec fn format_named(name: Seq<char>) -> Option<Format> {
    if name == "csv"@ {
        Some(Format::Csv)
    } else if name == "json"@ {
        Some(Format::Json)
    } else if name == "yaml"@ || name == "yml"@ {
        Some(Format::Yaml)
    } else if name == "toml"@ {
        Some(Format::Toml)
    } else {
        None
    }
}

/// The format that a file extension names, if it names one.
pub fn format_of(name: &str) -> (r: Option<Format>)
    ensures
        r == format_named(name@),
{
    if str_eq(name, "csv") {
        Some(Format::Csv)
    } else if str_eq(name, "json") {
        Some(Format::Json)
    } else if str_eq(name, "yaml") || str_eq(name, "yml") {
        Some(Format::Yaml)
    } else if str_eq(name, "toml") {
        Some(Format::Toml)
    } else {
        None
    }
}

/// The name of the field that tells the layout of a structured file.
pub open spec fn version_marker() -> Seq<char> {
    "_version"@
}

/// The layout that structured files are written in: a map from key to a map
/// from locale to text.
pub const FORMAT_VERSION: u64 = 2;

/// The texts of a row, in order.
pub open spec fn texts_of(row: Seq<(Seq<char>, Seq<char>)>) -> Seq<Seq<char>> {
    Seq::new(row.len(), |j: int| row[j].1)
}

/// The first record of a CSV file: the word `key`, then the locales of the
/// first row.
pub open spec fn csv_header(rows: Seq<(Seq<char>, Seq<(Seq<char>, Seq<char>)>)>) -> Seq<
    Seq<char>,
> {
    if rows.len() > 0 {
        seq!["key"@] + keys_of(rows[0].1)
    } else {
        seq!["key"@]
    }
}

/// The record of one row: its key, then its texts.
pub open spec fn csv_record(row: (Seq<char>, Seq<(Seq<char>, Seq<char>)>)) -> Seq<Seq<char>> {
    seq![row.0] + texts_of(row.1)
}

/// The records of a CSV file: the header, then one record for each row.
pub open spec fn csv_records(rows: Seq<(Seq<char>, Seq<(Seq<char>, Seq<char>)>)>) -> Seq<
    Seq<Seq<char>>,
> {
    seq![csv_header(rows)] + Seq::new(rows.len(), |i: int| csv_record(rows[i]))
}

/// All rows have as many cells as the first.
pub open spec fn uniform_rows(rows: Seq<(Seq<char>, Seq<(Seq<char>, Seq<char>)>)>) -> bool {
    forall|i: int| 0 <= i < rows.len() ==> (#[trigger] rows[i]).1.len() == rows[0].1.len()
}

/// What writing a table as CSV gives. It succeeds exactly when all rows
/// have as many cells as the first; the text is then what the bytes of the
/// records decode to. Rows of unequal length are refused by the writer.
pub open spec fn csv_outcome(
    r: Result<String, ConvertError>,
    rows: Seq<(Seq<char>, Seq<(Seq<char>, Seq<char>)>)>,
) -> bool {
    let bytes = csv_bytes(csv_records(rows));
    match r {
        Ok(text) => uniform_rows(rows) && text@ == decode_utf8(bytes),
        Err(ConvertError::Csv(_)) => !uniform_rows(rows),
        Err(_) => false,
    }
}

/// The header record of a table.
fn header_of(trs: &IndexMap<String, IndexMap<String, String>>) -> (header: Vec<String>)
    ensures
        str_views(header@) == csv_header(table_entries(*trs)),
{
    let mut header: Vec<String> = Vec::new();
    header.push("key".to_owned());
    assert(str_views(header@) == seq!["key"@]);
    match table_get_index(trs, 0) {
        Some((_, row)) => {
            let ghost locales = keys_of(row_entries(*row));
            let n = row_len(row);
            let mut j: usize = 0;
            while j < n
                invariant
                    j <= n,
                    n == row_entries(*row).len(),
                    locales == keys_of(row_entries(*row)),
                    str_views(header@) == seq!["key"@] + locales.take(j as int),
                decreases n - j,
            {
                match row_get_index(row, j) {
                    Some((locale, _)) => {
                        let ghost before = str_views(header@);
                        header.push(locale.clone());
                        assert(str_views(header@) == before.push(locales[j as int]));
                        assert(locales.take(j + 1) == locales.take(j as int).push(
                            locales[j as int],
                        ));
                    },
                    None => {},
                }
                j += 1;
            }
            assert(locales.take(j as int) == locales);
        },
        None => {},
    }
    header
}

/// The record of one row.
fn record_of(key: &String, row: &IndexMap<String, String>) -> (record: Vec<String>)
    ensures
        str_views(record@) == csv_record((key@, row_entries(*row))),
{
    let ghost texts = texts_of(row_entries(*row));
    let mut record: Vec<String> = Vec::new();
    record.push(key.clone());
    assert(str_views(record@) == seq![key@]);
    let n = row_len(row);
    let mut j: usize = 0;
    while j < n
        invariant
            j <= n,
            n == row_entries(*row).len(),
            texts == texts_of(row_entries(*row)),
            str_views(record@) == seq![key@] + texts.take(j as int),
        decreases n - j,
    {
        match row_get_index(row, j) {
            Some((_, text)) => {
                let ghost before = str_views(record@);
                record.push(text.clone());
                assert(str_views(record@) == before.push(texts[j as int]));
                assert(texts.take(j + 1) == texts.take(j as int).push(texts[j as int]));
            },
            None => {},
        }
        j += 1;
    }
    assert(texts.take(j as int) == texts);
    record
}

/// Writes a table as CSV: a header record with the word `key` and the
/// locales of the first row, then for each row a record with its key and its
/// texts.
pub fn convert_csv_text(trs: &IndexMap<String, IndexMap<String, String>>) -> (r: Result<
    String,
    ConvertError,
>)
    ensures
        csv_outcome(r, table_entries(*trs)),
{
    let ghost rows = table_entries(*trs);
    let ghost records = csv_records(rows);
    let header = header_of(trs);
    let mut writer = match csv_write_record(csv_writer(), &header) {
        Ok(w) => w,
        Err(e) => {
            return Err(ConvertError::Csv(e));
        },
    };
    assert(csv_written(writer) == records.take(1));
    let n = table_len(trs);
    let mut i: usize = 0;
    while i < n
        invariant
            i <= n,
            n == rows.len(),
            rows == table_entries(*trs),
            records == csv_records(rows),
            csv_written(writer) == records.take(i + 1),
            forall|k: int| 0 <= k < i ==> (#[trigger] rows[k]).1.len() == rows[0].1.len(),
        decreases n - i,
    {
        match table_get_index(trs, i) {
            Some((key, row)) => {
                let record = record_of(key, row);
                assert(records[i + 1] == csv_record(rows[i as int]));
                assert(records.take(i + 1)[0] == csv_header(rows));
                match csv_write_record(writer, &record) {
                    Ok(w) => {
                        writer = w;
                        assert(csv_written(writer) == records.take(i + 2));
                    },
                    Err(e) => {
                        assert(rows[i as int].1.len() != rows[0].1.len());
                        return Err(ConvertError::Csv(e));
                    },
                }
            },
            None => {},
        }
        i += 1;
    }
    assert(records.take(i + 1) == records);
    let bytes = match csv_into_inner(writer) {
        Ok(b) => b,
        Err(e) => {
            return Err(ConvertError::Io(e));
        },
    };
    match string_from_utf8(bytes) {
        Ok(text) => Ok(text),
        Err(e) => Err(ConvertError::Utf8(e)),
    }
}

/// `s` without the dashes, three at a time, that it starts with.
pub open spec fn without_dashes(s: Seq<char>) -> Seq<char>
    decreases s.len(),
{
    if s.len() >= 3 && s[0] == '-' && s[1] == '-' && s[2] == '-' {
        without_dashes(s.skip(3))
    } else {
        s
    }
}

/// A YAML text without the document marker `---` and the whitespace after
/// it.
pub open spec fn without_document_marker(s: Seq<char>) -> Seq<char> {
    crate::text::trimmed_start(without_dashes(s))
}

/// Takes the document marker off the start of a YAML text.
pub fn strip_document_marker(text: &str) -> (r: String)
    ensures
        r@ == without_document_marker(text@),
{
    let v = chars_of(text);
    let mut i: usize = 0;
    assert(v@.skip(0) == v@);
    while v.len() - i >= 3 && v[i] == '-' && v[i + 1] == '-' && v[i + 2] == '-'
        invariant
            i <= v@.len(),
            without_dashes(v@) == without_dashes(v@.skip(i as int)),
        decreases v@.len() - i,
    {
        assert(v@.skip(i as int).skip(3) == v@.skip(i + 3));
        i += 3;
    }
    let j = skip_spaces(&v, i);
    assert(v@.skip(j as int) == v@.subrange(j as int, v@.len() as int));
    string_of_range(&v, j, v.len())
}

/// What writing a table in a format gives. A structured format holds the
/// version field `_version`, then the rows; its text is that of the
/// encoder, for YAML without the document marker. JSON is always written;
/// YAML and TOML are written exactly when their encoder accepts the
/// document; CSV is written exactly when the rows are of equal length.
pub open spec fn convert_outcome(
    r: Result<String, ConvertError>,
    rows: Seq<(Seq<char>, Seq<(Seq<char>, Seq<char>)>)>,
    format: Seq<char>,
) -> bool {
    match format_named(format) {
        Some(Format::Csv) => csv_outcome(r, rows),
        Some(Format::Json) => match r {
            Ok(text) => text@ == json_text(version_marker(), FORMAT_VERSION, rows),
            Err(_) => false,
        },
        Some(Format::Yaml) => match yaml_text(version_marker(), FORMAT_VERSION, rows) {
            Some(encoded) => r matches Ok(text) && text@ == without_document_marker(encoded),
            None => r matches Err(e) && e is Yaml,
        },
        Some(Format::Toml) => match toml_text(version_marker(), FORMAT_VERSION, rows) {
            Some(encoded) => r matches Ok(text) && text@ == encoded,
            None => r matches Err(e) && e is Toml,
        },
        None => match r {
            Ok(_) => false,
            Err(e) => e matches ConvertError::UnexpectedFormat(name) && name@ == format,
        },
    }
}

/// Writes a table in the format that `format` names: `csv`, `json`, `yaml`,
/// `yml` or `toml`. Any other name is an error.
pub fn convert_text(trs: &IndexMap<String, IndexMap<String, String>>, format: &str) -> (r: Result<
    String,
    ConvertError,
>)
    ensures
        convert_outcome(r, table_entries(*trs), format@),
{
    match format_of(format) {
        Some(Format::Csv) => convert_csv_text(trs),
        Some(Format::Json) => match json_pretty("_version", FORMAT_VERSION, trs) {
            Ok(text) => Ok(text),
            Err(e) => Err(ConvertError::Json(e)),
        },
        Some(Format::Yaml) => match yaml_string("_version", FORMAT_VERSION, trs) {
            Ok(text) => Ok(strip_document_marker(text.as_str())),
            Err(e) => Err(ConvertError::Yaml(e)),
        },
        Some(Format::Toml) => match toml_pretty("_version", FORMAT_VERSION, trs) {
            Ok(text) => Ok(text),
            Err(e) => Err(ConvertError::Toml(e)),
        },
        None => Err(ConvertError::UnexpectedFormat(format.to_owned())),
    }
}

} // verus!
