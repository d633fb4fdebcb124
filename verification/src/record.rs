use vstd::prelude::*;

use crate::clock::now_millis;
use crate::error::Error;
use crate::fields::{find_key, merge_entries, FieldMap};
use crate::json::{ascii_bytes, dec_bytes, json_string, push_ascii, push_json_string, push_u64};
use crate::level::Level;
use crate::time::{iso_bytes, push_iso, MAX_EPOCH_MS};
use crate::value::{jmember_bytes, null_bytes, push_jval, JsonValue};

verus! {

/// One structured log occurrence: when it happened, how severe it is,
/// where it came from, and its named data fields.
pub struct LogStashRecord {
    /// Milliseconds since the Unix epoch, assigned at creation time.
    pub timestamp_ms: u64,
    pub module: Option<String>,
    pub file: Option<String>,
    pub line: Option<u32>,
    pub level: Level,
    pub target: String,
    pub fields: FieldMap,
}

impl LogStashRecord {
    /// Well-formed: the timestamp is in the supported range and the
    /// field keys are unique.
    pub open spec fn wf(self) -> bool {
        &&& self.timestamp_ms <= MAX_EPOCH_MS
        &&& self.fields.wf()
    }

    /// Whether the record is well-formed: a runtime check of `wf`.
    pub fn check_wf(&self) -> (r: bool)
        ensures
            r == self.wf(),
    {
        self.timestamp_ms <= MAX_EPOCH_MS && self.fields.check_wf()
    }

    /// A fresh record carrying the current time, severity `Warn`, an
    /// empty target and no fields.
    pub fn new() -> (r: LogStashRecord)
        ensures
            r.wf(),
            r.module is None,
            r.file is None,
            r.line is None,
            r.level == Level::Warn,
            r.target@ == Seq::<char>::empty(),
            r.fields.entries@ == Seq::<(String, JsonValue)>::empty(),
    {
        let now = now_millis();
        let ts: u64 = if now < 0 {
            0
        } else if now as u64 > MAX_EPOCH_MS {
            MAX_EPOCH_MS
        } else {
            now as u64
        };
        LogStashRecord {
            timestamp_ms: ts,
            module: None,
            file: None,
            line: None,
            level: Level::Warn,
            target: String::new(),
            fields: FieldMap::new(),
        }
    }

    /// A record built from one originating call: its source location,
    /// severity and target, with the rendered message stored under the
    /// field key `message`.
    pub fn from_record(
        module: Option<String>,
        file: Option<String>,
        line: Option<u32>,
        level: Level,
        target: String,
        message: String,
    ) -> (r: LogStashRecord)
        ensures
            r.wf(),
            r.module == module,
            r.file == file,
            r.line == line,
            r.level == level,
            r.target == target,
            r.fields.entries@.len() == 1,
            r.fields.entries@[0].0@ == "message"@,
            r.fields.entries@[0].1 == JsonValue::Str(message),
    {
        let mut event = LogStashRecord::new();
        event.module = module;
        event.file = file;
        event.line = line;
        event.level = level;
        event.target = target;
        event.add_data("message", JsonValue::Str(message));
        event
    }

    /// Replaces the timestamp; a value beyond the supported range is
    /// clamped to its edge.
    pub fn set_timestamp(&mut self, timestamp_ms: u64)
        ensures
            *final(self) == (LogStashRecord {
                timestamp_ms: if timestamp_ms > MAX_EPOCH_MS {
                    MAX_EPOCH_MS
                } else {
                    timestamp_ms
                },
                ..*old(self)
            }),
    {
        self.timestamp_ms = if timestamp_ms > MAX_EPOCH_MS {
            MAX_EPOCH_MS
        } else {
            timestamp_ms
        };
    }

    /// Stores `value` under `@metadata.` followed by `key`.
    pub fn add_metadata(&mut self, key: &str, value: JsonValue)
        ensures
            ({
                let full = "@metadata."@ + key@;
                let f = find_key(old(self).fields.entries@, full);
                let entries = final(self).fields.entries@;
                &&& *final(self) == (LogStashRecord { fields: final(self).fields, ..*old(self) })
                &&& entries.len() > 0
                &&& if f < 0 {
                    entries == old(self).fields.entries@.push((entries.last().0, value))
                        && entries.last().0@ == full
                } else {
                    entries == old(self).fields.entries@.update(f, (entries[f].0, value))
                        && entries[f].0@ == full
                }
            }),
            old(self).wf() ==> final(self).wf(),
    {
        let mut full = String::new();
        full.append("@metadata.");
        full.append(key);
        proof {
            crate::fields::lemma_find_key_range(self.fields.entries@, full@);
        }
        self.fields.insert(full, value);
    }

    /// Stores `value` under `key`, replacing any value already there.
    pub fn add_data(&mut self, key: &str, value: JsonValue)
        ensures
            ({
                let f = find_key(old(self).fields.entries@, key@);
                let entries = final(self).fields.entries@;
                &&& *final(self) == (LogStashRecord { fields: final(self).fields, ..*old(self) })
                &&& entries.len() > 0
                &&& if f < 0 {
                    entries == old(self).fields.entries@.push((entries.last().0, value))
                        && entries.last().0@ == key@
                } else {
                    entries == old(self).fields.entries@.update(f, (entries[f].0, value))
                        && entries[f].0@ == key@
                }
            }),
            old(self).wf() ==> final(self).wf(),
    {
        let owned = String::from_str(key);
        proof {
            crate::fields::lemma_find_key_range(self.fields.entries@, owned@);
        }
        self.fields.insert(owned, value);
    }

    /// Merges `extra_fields` into the record's fields; an entry of
    /// `extra_fields` wins over an existing entry with the same key.
    pub fn with_data_from_map(self, extra_fields: FieldMap) -> (r: LogStashRecord)
        ensures
            r == (LogStashRecord { fields: r.fields, ..self }),
            r.fields.entries@ == merge_entries(self.fields.entries@, extra_fields.entries@),
            self.wf() ==> r.wf(),
    {
        let mut out = self;
        out.fields.extend_from(extra_fields);
        out
    }
}

/// The opening of the serialized object, through the quote that opens
/// the timestamp value: `{"@timestamp":"`.
pub open spec fn key_timestamp() -> Seq<u8> {
    seq![
        '{' as u8, '"' as u8, '@' as u8, 't' as u8, 'i' as u8, 'm' as u8, 'e' as u8, 's' as u8,
        't' as u8, 'a' as u8, 'm' as u8, 'p' as u8, '"' as u8, ':' as u8, '"' as u8,
    ]
}

/// Closes the timestamp value and names the module field: `","module":`.
pub open spec fn key_module() -> Seq<u8> {
    seq![
        '"' as u8, ',' as u8, '"' as u8, 'm' as u8, 'o' as u8, 'd' as u8, 'u' as u8, 'l' as u8,
        'e' as u8, '"' as u8, ':' as u8,
    ]
}

/// Names the file field: `,"file":`.
pub open spec fn key_file() -> Seq<u8> {
    seq![',' as u8, '"' as u8, 'f' as u8, 'i' as u8, 'l' as u8, 'e' as u8, '"' as u8, ':' as u8]
}

/// Names the line field: `,"line":`.
pub open spec fn key_line() -> Seq<u8> {
    seq![',' as u8, '"' as u8, 'l' as u8, 'i' as u8, 'n' as u8, 'e' as u8, '"' as u8, ':' as u8]
}

/// Names the level field and opens its quoted value: `,"level":"`.
pub open spec fn key_level() -> Seq<u8> {
    seq![
        ',' as u8, '"' as u8, 'l' as u8, 'e' as u8, 'v' as u8, 'e' as u8, 'l' as u8, '"' as u8,
        ':' as u8, '"' as u8,
    ]
}

/// Closes the level value and names the target field: `","target":`.
pub open spec fn key_target() -> Seq<u8> {
    seq![
        '"' as u8, ',' as u8, '"' as u8, 't' as u8, 'a' as u8, 'r' as u8, 'g' as u8, 'e' as u8,
        't' as u8, '"' as u8, ':' as u8,
    ]
}

/// The upper-case name of a severity.
pub open spec fn level_bytes(l: Level) -> Seq<u8> {
    match l {
        Level::Trace => seq!['T' as u8, 'R' as u8, 'A' as u8, 'C' as u8, 'E' as u8],
        Level::Debug => seq!['D' as u8, 'E' as u8, 'B' as u8, 'U' as u8, 'G' as u8],
        Level::Info => seq!['I' as u8, 'N' as u8, 'F' as u8, 'O' as u8],
        Level::Warn => seq!['W' as u8, 'A' as u8, 'R' as u8, 'N' as u8],
        Level::Error => seq!['E' as u8, 'R' as u8, 'R' as u8, 'O' as u8, 'R' as u8],
    }
}

/// An optional string value: a JSON string, or `null` when absent.
pub open spec fn opt_string_json(o: Option<String>) -> Seq<u8> {
    match o {
        Option::None => null_bytes(),
        Option::Some(s) => json_string(s@),
    }
}

/// An optional line number: decimal digits, or `null` when absent.
pub open spec fn opt_u32_json(o: Option<u32>) -> Seq<u8> {
    match o {
        Option::None => null_bytes(),
        Option::Some(n) => dec_bytes(n as int),
    }
}

/// The data fields of a record, flattened into the top-level object:
/// each one `,"key":value`.
pub open spec fn fields_json(entries: Seq<(String, JsonValue)>) -> Seq<u8>
    decreases entries,
{
    if entries.len() == 0 {
        seq![]
    } else {
        fields_json(entries.drop_last()) + seq![',' as u8] + jmember_bytes(entries.last())
    }
}

/// The wire form of one record: a single-line JSON object closed by a
/// newline. The timestamp is ISO-8601 with millisecond precision, the
/// severity its upper-case name, and the data fields stand flattened
/// at the top level.
pub open spec fn record_json(r: LogStashRecord) -> Seq<u8> {
    key_timestamp() + iso_bytes(r.timestamp_ms as int) + key_module() + opt_string_json(r.module)
        + key_file() + opt_string_json(r.file) + key_line() + opt_u32_json(r.line) + key_level()
        + level_bytes(r.level) + key_target() + json_string(r.target@) + fields_json(
        r.fields.entries@,
    ) + seq!['}' as u8, '\n' as u8]
}

/// The wire form of a batch: the records' lines, one after another.
pub open spec fn batch_json(rs: Seq<LogStashRecord>) -> Seq<u8>
    decreases rs,
{
    if rs.len() == 0 {
        seq![]
    } else {
        batch_json(rs.drop_last()) + record_json(rs.last())
    }
}

/// Appends `null` to `out`.
fn push_null(out: &mut Vec<u8>)
    ensures
        final(out)@ == old(out)@ + null_bytes(),
{
    proof {
        reveal_strlit("null");
        assert(vstd::utf8::is_ascii_chars("null"@));
    }
    push_ascii(out, "null");
    proof {
        assert(ascii_bytes("null"@) =~= null_bytes());
    }
}

/// Appends the upper-case name of `l` to `out`.
fn push_level(out: &mut Vec<u8>, l: Level)
    ensures
        final(out)@ == old(out)@ + level_bytes(l),
{
    match l {
        Level::Trace => {
            proof {
                reveal_strlit("TRACE");
                assert(vstd::utf8::is_ascii_chars("TRACE"@));
            }
            push_ascii(out, "TRACE");
            proof {
                assert(ascii_bytes("TRACE"@) =~= level_bytes(l));
            }
        },
        Level::Debug => {
            proof {
                reveal_strlit("DEBUG");
                assert(vstd::utf8::is_ascii_chars("DEBUG"@));
            }
            push_ascii(out, "DEBUG");
            proof {
                assert(ascii_bytes("DEBUG"@) =~= level_bytes(l));
            }
        },
        Level::Info => {
            proof {
                reveal_strlit("INFO");
                assert(vstd::utf8::is_ascii_chars("INFO"@));
            }
            push_ascii(out, "INFO");
            proof {
                assert(ascii_bytes("INFO"@) =~= level_bytes(l));
            }
        },
        Level::Warn => {
            proof {
                reveal_strlit("WARN");
                assert(vstd::utf8::is_ascii_chars("WARN"@));
            }
            push_ascii(out, "WARN");
            proof {
                assert(ascii_bytes("WARN"@) =~= level_bytes(l));
            }
        },
        Level::Error => {
            proof {
                reveal_strlit("ERROR");
                assert(vstd::utf8::is_ascii_chars("ERROR"@));
            }
            push_ascii(out, "ERROR");
            proof {
                assert(ascii_bytes("ERROR"@) =~= level_bytes(l));
            }
        },
    }
}

/// Appends an optional string value to `out`.
fn push_opt_string(out: &mut Vec<u8>, o: &Option<String>)
    ensures
        final(out)@ == old(out)@ + opt_string_json(*o),
{
    match o {
        Option::None => push_null(out),
        Option::Some(s) => push_json_string(out, s.as_str()),
    }
}

/// Appends the data fields of a record to `out`.
fn push_fields(out: &mut Vec<u8>, entries: &Vec<(String, JsonValue)>)
    ensures
        final(out)@ == old(out)@ + fields_json(entries@),
{
    let n = entries.len();
    let mut i: usize = 0;
    while i < n
        invariant
            n == entries@.len(),
            i <= n,
            out@ == old(out)@ + fields_json(entries@.subrange(0, i as int)),
        decreases n - i,
    {
        out.push(',' as u8);
        push_json_string(out, entries[i].0.as_str());
        out.push(':' as u8);
        push_jval(out, &entries[i].1);
        i = i + 1;
        proof {
            assert(entries@.subrange(0, i as int).drop_last() =~= entries@.subrange(0, i - 1));
            assert(entries@.subrange(0, i as int).last() == entries@[i - 1]);
            assert(out@ =~= old(out)@ + fields_json(entries@.subrange(0, i as int)));
        }
    }
    proof {
        assert(entries@.subrange(0, entries@.len() as int) =~= entries@);
    }
}

/// Appends the wire form of one record to `out`.
#[verifier::rlimit(60)]
pub fn serialize_into(out: &mut Vec<u8>, event: &LogStashRecord)
    requires
        event.wf(),
    ensures
        final(out)@ == old(out)@ + record_json(*event),
{
    proof {
        reveal_strlit("{\"@timestamp\":\"");
        reveal_strlit("\",\"module\":");
        reveal_strlit(",\"file\":");
        reveal_strlit(",\"line\":");
        reveal_strlit(",\"level\":\"");
        reveal_strlit("\",\"target\":");
        assert(vstd::utf8::is_ascii_chars("{\"@timestamp\":\""@));
        assert(vstd::utf8::is_ascii_chars("\",\"module\":"@));
        assert(vstd::utf8::is_ascii_chars(",\"file\":"@));
        assert(vstd::utf8::is_ascii_chars(",\"line\":"@));
        assert(vstd::utf8::is_ascii_chars(",\"level\":\""@));
        assert(vstd::utf8::is_ascii_chars("\",\"target\":"@));
        assert(ascii_bytes("{\"@timestamp\":\""@) =~= key_timestamp());
        assert(ascii_bytes("\",\"module\":"@) =~= key_module());
        assert(ascii_bytes(",\"file\":"@) =~= key_file());
        assert(ascii_bytes(",\"line\":"@) =~= key_line());
        assert(ascii_bytes(",\"level\":\""@) =~= key_level());
        assert(ascii_bytes("\",\"target\":"@) =~= key_target());
    }
    push_ascii(out, "{\"@timestamp\":\"");
    push_iso(out, event.timestamp_ms);
    push_ascii(out, "\",\"module\":");
    push_opt_string(out, &event.module);
    push_ascii(out, ",\"file\":");
    push_opt_string(out, &event.file);
    push_ascii(out, ",\"line\":");
    match &event.line {
        Option::None => push_null(out),
        Option::Some(n) => push_u64(out, *n as u64),
    }
    push_ascii(out, ",\"level\":\"");
    push_level(out, event.level);
    push_ascii(out, "\",\"target\":");
    push_json_string(out, event.target.as_str());
    push_fields(out, &event.fields.entries);
    out.push('}' as u8);
    out.push('\n' as u8);
    proof {
        assert(out@ =~= old(out)@ + record_json(*event));
    }
}

/// The wire form of one record: a single-line JSON object closed by a
/// newline.
pub fn serialize(event: &LogStashRecord) -> (r: Vec<u8>)
    requires
        event.wf(),
    ensures
        r@ == record_json(*event),
{
    let mut out: Vec<u8> = Vec::new();
    serialize_into(&mut out, event);
    out
}

/// The wire form of a batch: each record's line, one after another,
/// with no separator beyond each line's own newline.
pub fn serialize_batch(events: &Vec<LogStashRecord>) -> (r: Vec<u8>)
    requires
        forall|i: int| 0 <= i < events@.len() ==> (#[trigger] events@[i]).wf(),
    ensures
        r@ == batch_json(events@),
{
    let mut out: Vec<u8> = Vec::new();
    let n = events.len();
    let mut i: usize = 0;
    while i < n
        invariant
            n == events@.len(),
            i <= n,
            forall|j: int| 0 <= j < events@.len() ==> (#[trigger] events@[j]).wf(),
            out@ == batch_json(events@.subrange(0, i as int)),
        decreases n - i,
    {
        serialize_into(&mut out, &events[i]);
        i = i + 1;
        proof {
            assert(events@.subrange(0, i as int).drop_last() =~= events@.subrange(0, i - 1));
            assert(events@.subrange(0, i as int).last() == events@[i - 1]);
        }
    }
    proof {
        assert(events@.subrange(0, events@.len() as int) =~= events@);
    }
    out
}


/// Whether a record is well-formed, as a predicate value for `filter`.
pub open spec fn wf_pred() -> spec_fn(LogStashRecord) -> bool {
    |e: LogStashRecord| e.wf()
}

/// Splits a batch into the records that can be serialized, keeping
/// their order, and the count of those dropped as not well-formed.
pub fn serializable_records(events: Vec<LogStashRecord>) -> (r: (Vec<LogStashRecord>, usize))
    ensures
        r.0@ == events@.filter(wf_pred()),
        forall|i: int| 0 <= i < r.0@.len() ==> (#[trigger] r.0@[i]).wf(),
        r.1 + r.0@.len() == events@.len(),
{
    let ghost orig = events@;
    let mut rest = events;
    let mut kept: Vec<LogStashRecord> = Vec::new();
    let mut dropped: usize = 0;
    let n = rest.len();
    let mut i: usize = 0;
    proof {
        reveal(Seq::filter);
        assert(orig.subrange(0, 0) =~= Seq::<LogStashRecord>::empty());
    }
    while i < n
        invariant
            n == orig.len(),
            i <= n,
            rest@ == orig.subrange(i as int, n as int),
            kept@ == orig.subrange(0, i as int).filter(wf_pred()),
            forall|j: int| 0 <= j < kept@.len() ==> (#[trigger] kept@[j]).wf(),
            dropped + kept@.len() == i,
        decreases n - i,
    {
        let e = rest.remove(0);
        proof {
            assert(e == orig[i as int]);
        }
        if e.check_wf() {
            kept.push(e);
        } else {
            dropped = dropped + 1;
        }
        i = i + 1;
        proof {
            reveal(Seq::filter);
            assert(rest@ =~= orig.subrange(i as int, n as int));
            assert(orig.subrange(0, i as int).drop_last() =~= orig.subrange(0, i - 1));
            assert(orig.subrange(0, i as int).last() == orig[i - 1]);
        }
    }
    proof {
        assert(orig.subrange(0, n as int) =~= orig);
    }
    (kept, dropped)
}

/// The wire form of one record, or a serialization error exactly when
/// the record is not well-formed; such a record is dropped alone.
pub fn serialize_checked(event: &LogStashRecord) -> (r: Result<Vec<u8>, Error>)
    ensures
        match r {
            Result::Ok(bytes) => event.wf() && bytes@ == record_json(*event),
            Result::Err(e) => !event.wf() && e is Serialization,
        },
{
    if !event.check_wf() {
        return Err(Error::Serialization(String::from_str("record is not well-formed")));
    }
    Ok(serialize(event))
}
} // verus!
