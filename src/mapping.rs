//! Mapping documents: a strict reader that turns the document's events into
//! mapping records, and the join edges read back from the store.

use vstd::prelude::*;
use vstd::string::*;

use crate::markup::{unescape_of, unescape_text};
use crate::text::{trim, trim_str};

verus! {

/// One edge of a mapping document: two attributes and how to join them.
#[derive(Debug, Clone, PartialEq, Eq)]
pub struct MappingRecord {
    pub head_name: String,
    pub head_description: String,
    pub tail_name: String,
    pub tail_description: String,
    pub datasource: String,
    pub query: String,
    pub key: String,
    pub value: String,
}

/// The mathematical value of a [`MappingRecord`].
pub struct RecordView {
    pub head_name: Seq<char>,
    pub head_description: Seq<char>,
    pub tail_name: Seq<char>,
    pub tail_description: Seq<char>,
    pub datasource: Seq<char>,
    pub query: Seq<char>,
    pub key: Seq<char>,
    pub value: Seq<char>,
}

impl View for MappingRecord {
    type V = RecordView;

    open spec fn view(&self) -> RecordView {
        RecordView {
            head_name: self.head_name@,
            head_description: self.head_description@,
            tail_name: self.tail_name@,
            tail_description: self.tail_description@,
            datasource: self.datasource@,
            query: self.query@,
            key: self.key@,
            value: self.value@,
        }
    }
}

/// An event of a mapping document: a start tag, an end tag (local names),
/// text as it stands in the document (references not yet resolved), or the
/// end of the document.
#[derive(Debug, Clone, PartialEq, Eq)]
pub enum DvmEvent {
    Start(String),
    End(String),
    Text(String),
    Eof,
}

/// The mathematical value of a [`DvmEvent`].
pub enum DvmEventView {
    Start(Seq<char>),
    End(Seq<char>),
    Text(Seq<char>),
    Eof,
}

impl View for DvmEvent {
    type V = DvmEventView;

    open spec fn view(&self) -> DvmEventView {
        match self {
            DvmEvent::Start(s) => DvmEventView::Start(s@),
            DvmEvent::End(s) => DvmEventView::End(s@),
            DvmEvent::Text(s) => DvmEventView::Text(s@),
            DvmEvent::Eof => DvmEventView::Eof,
        }
    }
}

/// A mapping document that breaks the schema.
#[derive(Debug, Clone, PartialEq, Eq)]
pub enum DvmError {
    UnexpectedStart(String),
    UnexpectedEnd(String),
    UnexpectedText(String),
    /// Text with a malformed or unknown reference.
    InvalidEscape(String),
}

/// The mathematical value of a [`DvmError`].
pub enum DvmErrorView {
    UnexpectedStart(Seq<char>),
    UnexpectedEnd(Seq<char>),
    UnexpectedText(Seq<char>),
    InvalidEscape(Seq<char>),
}

impl View for DvmError {
    type V = DvmErrorView;

    open spec fn view(&self) -> DvmErrorView {
        match self {
            DvmError::UnexpectedStart(s) => DvmErrorView::UnexpectedStart(s@),
            DvmError::UnexpectedEnd(s) => DvmErrorView::UnexpectedEnd(s@),
            DvmError::UnexpectedText(s) => DvmErrorView::UnexpectedText(s@),
            DvmError::InvalidEscape(s) => DvmErrorView::InvalidEscape(s@),
        }
    }
}

/// What one event produced.
#[derive(Debug, Clone, PartialEq, Eq)]
pub enum DvmStep {
    /// Nothing yet.
    Continue,
    /// An `edge` element closed; this is its record.
    Record(MappingRecord),
    /// The document ended.
    Finished,
}

/// The mathematical value of a [`DvmStep`].
pub enum DvmStepView {
    Continue,
    Record(RecordView),
    Finished,
}

impl View for DvmStep {
    type V = DvmStepView;

    open spec fn view(&self) -> DvmStepView {
        match self {
            DvmStep::Continue => DvmStepView::Continue,
            DvmStep::Record(r) => DvmStepView::Record(r@),
            DvmStep::Finished => DvmStepView::Finished,
        }
    }
}

/// The reader's state inside one `edge` element: the texts seen so far and
/// the elements that are open.
pub struct DvmReader {
    pub record: MappingRecord,
    pub in_head: bool,
    pub in_tail: bool,
    pub in_datasource: bool,
    pub in_query: bool,
    pub in_key: bool,
    pub in_value: bool,
}

/// The mathematical value of a [`DvmReader`].
pub struct ReaderView {
    pub record: RecordView,
    pub in_head: bool,
    pub in_tail: bool,
    pub in_datasource: bool,
    pub in_query: bool,
    pub in_key: bool,
    pub in_value: bool,
}

impl View for DvmReader {
    type V = ReaderView;

    open spec fn view(&self) -> ReaderView {
        ReaderView {
            record: self.record@,
            in_head: self.in_head,
            in_tail: self.in_tail,
            in_datasource: self.in_datasource,
            in_query: self.in_query,
            in_key: self.in_key,
            in_value: self.in_value,
        }
    }
}

/// The state at the start of an `edge` element.
pub open spec fn fresh_reader() -> ReaderView {
    ReaderView {
        record: RecordView {
            head_name: Seq::empty(),
            head_description: Seq::empty(),
            tail_name: Seq::empty(),
            tail_description: Seq::empty(),
            datasource: Seq::empty(),
            query: Seq::empty(),
            key: Seq::empty(),
            value: Seq::empty(),
        },
        in_head: false,
        in_tail: false,
        in_datasource: false,
        in_query: false,
        in_key: false,
        in_value: false,
    }
}

/// Tags that may open or close without changing the state.
pub open spec fn is_neutral_tag(t: Seq<char>) -> bool {
    t == "name"@ || t == "description"@ || t == "edges"@
}

/// Sets the flag of the section that `t` names to `open`, if it names one.
pub open spec fn set_section(s: ReaderView, t: Seq<char>, open: bool) -> Option<ReaderView> {
    if t == "headnode"@ {
        Some(ReaderView { in_head: open, ..s })
    } else if t == "tailnode"@ {
        Some(ReaderView { in_tail: open, ..s })
    } else if t == "datasource"@ {
        Some(ReaderView { in_datasource: open, ..s })
    } else if t == "query"@ {
        Some(ReaderView { in_query: open, ..s })
    } else if t == "key"@ {
        Some(ReaderView { in_key: open, ..s })
    } else if t == "value"@ {
        Some(ReaderView { in_value: open, ..s })
    } else {
        None
    }
}

/// Stores a trimmed, non-empty text in the first open section: an attribute
/// section takes its name first, then its description.
pub open spec fn store_text(s: ReaderView, x: Seq<char>) -> Option<ReaderView> {
    let r = s.record;
    if s.in_head {
        if r.head_name.len() == 0 {
            Some(ReaderView { record: RecordView { head_name: x, ..r }, ..s })
        } else {
            Some(ReaderView { record: RecordView { head_description: x, ..r }, ..s })
        }
    } else if s.in_tail {
        if r.tail_name.len() == 0 {
            Some(ReaderView { record: RecordView { tail_name: x, ..r }, ..s })
        } else {
            Some(ReaderView { record: RecordView { tail_description: x, ..r }, ..s })
        }
    } else if s.in_datasource {
        Some(ReaderView { record: RecordView { datasource: x, ..r }, ..s })
    } else if s.in_query {
        Some(ReaderView { record: RecordView { query: x, ..r }, ..s })
    } else if s.in_key {
        Some(ReaderView { record: RecordView { key: x, ..r }, ..s })
    } else if s.in_value {
        Some(ReaderView { record: RecordView { value: x, ..r }, ..s })
    } else {
        None
    }
}

/// A text whose references are resolved: trimmed, and if anything is left,
/// stored in the first open section.
pub open spec fn spec_text(s: ReaderView, u: Seq<char>) -> Result<(ReaderView, DvmStepView), DvmErrorView> {
    let x = trim(u);
    if x.len() == 0 {
        Ok((s, DvmStepView::Continue))
    } else {
        match store_text(s, x) {
            Some(n) => Ok((n, DvmStepView::Continue)),
            None => Err(DvmErrorView::UnexpectedText(x)),
        }
    }
}

/// One transition of the reader.
pub open spec fn spec_step(s: ReaderView, ev: DvmEventView) -> Result<
    (ReaderView, DvmStepView),
    DvmErrorView,
> {
    match ev {
        DvmEventView::Start(t) => match set_section(s, t, true) {
            Some(n) => Ok((n, DvmStepView::Continue)),
            None => if is_neutral_tag(t) || t == "edge"@ {
                Ok((s, DvmStepView::Continue))
            } else {
                Err(DvmErrorView::UnexpectedStart(t))
            },
        },
        DvmEventView::End(t) => match set_section(s, t, false) {
            Some(n) => Ok((n, DvmStepView::Continue)),
            None => if is_neutral_tag(t) {
                Ok((s, DvmStepView::Continue))
            } else if t == "edge"@ {
                Ok((fresh_reader(), DvmStepView::Record(s.record)))
            } else {
                Err(DvmErrorView::UnexpectedEnd(t))
            },
        },
        DvmEventView::Text(t) => match unescape_of(t) {
            Some(u) => spec_text(s, u),
            None => Err(DvmErrorView::InvalidEscape(t)),
        },
        DvmEventView::Eof => Ok((s, DvmStepView::Finished)),
    }
}

fn is_tag(t: &String, lit: &str) -> (r: bool)
    ensures
        r == (t@ == lit@),
{
    *t == String::from_str(lit)
}

fn empty_record() -> (r: MappingRecord)
    ensures
        r@ == fresh_reader().record,
{
    MappingRecord {
        head_name: String::new(),
        head_description: String::new(),
        tail_name: String::new(),
        tail_description: String::new(),
        datasource: String::new(),
        query: String::new(),
        key: String::new(),
        value: String::new(),
    }
}

impl DvmReader {
    /// A reader at the start of a document.
    pub fn new() -> (r: DvmReader)
        ensures
            r@ == fresh_reader(),
    {
        DvmReader {
            record: empty_record(),
            in_head: false,
            in_tail: false,
            in_datasource: false,
            in_query: false,
            in_key: false,
            in_value: false,
        }
    }

    fn set_section(&mut self, t: &String, open: bool) -> (found: bool)
        ensures
            match set_section(old(self)@, t@, open) {
                Some(n) => found && final(self)@ == n,
                None => !found && *final(self) == *old(self),
            },
    {
        if is_tag(t, "headnode") {
            self.in_head = open;
        } else if is_tag(t, "tailnode") {
            self.in_tail = open;
        } else if is_tag(t, "datasource") {
            self.in_datasource = open;
        } else if is_tag(t, "query") {
            self.in_query = open;
        } else if is_tag(t, "key") {
            self.in_key = open;
        } else if is_tag(t, "value") {
            self.in_value = open;
        } else {
            return false;
        }
        true
    }

    fn store_text(&mut self, x: String) -> (stored: bool)
        ensures
            match store_text(old(self)@, x@) {
                Some(n) => stored && final(self)@ == n,
                None => !stored && *final(self) == *old(self),
            },
    {
        if self.in_head {
            if self.record.head_name.unicode_len() == 0 {
                self.record.head_name = x;
            } else {
                self.record.head_description = x;
            }
        } else if self.in_tail {
            if self.record.tail_name.unicode_len() == 0 {
                self.record.tail_name = x;
            } else {
                self.record.tail_description = x;
            }
        } else if self.in_datasource {
            self.record.datasource = x;
        } else if self.in_query {
            self.record.query = x;
        } else if self.in_key {
            self.record.key = x;
        } else if self.in_value {
            self.record.value = x;
        } else {
            return false;
        }
        true
    }

    /// Consumes a text whose references are already resolved.
    pub fn take_text(&mut self, u: String) -> (r: Result<DvmStep, DvmError>)
        ensures
            match r {
                Ok(st) => spec_text(old(self)@, u@) == Ok::<
                    (ReaderView, DvmStepView),
                    DvmErrorView,
                >((final(self)@, st@)),
                Err(e) => spec_text(old(self)@, u@) == Err::<
                    (ReaderView, DvmStepView),
                    DvmErrorView,
                >(e@),
            },
    {
        let x = trim_str(u.as_str());
        if x.unicode_len() == 0 {
            Ok(DvmStep::Continue)
        } else {
            let keep = x.clone();
            if self.store_text(x) {
                Ok(DvmStep::Continue)
            } else {
                Err(DvmError::UnexpectedText(keep))
            }
        }
    }

    /// Consumes one event of a mapping document.
    pub fn step(&mut self, ev: DvmEvent) -> (r: Result<DvmStep, DvmError>)
        ensures
            match r {
                Ok(st) => spec_step(old(self)@, ev@) == Ok::<
                    (ReaderView, DvmStepView),
                    DvmErrorView,
                >((final(self)@, st@)),
                Err(e) => spec_step(old(self)@, ev@) == Err::<
                    (ReaderView, DvmStepView),
                    DvmErrorView,
                >(e@),
            },
    {
        match ev {
            DvmEvent::Start(t) => {
                if self.set_section(&t, true) {
                    Ok(DvmStep::Continue)
                } else if is_tag(&t, "name") || is_tag(&t, "description") || is_tag(&t, "edges")
                    || is_tag(&t, "edge") {
                    Ok(DvmStep::Continue)
                } else {
                    Err(DvmError::UnexpectedStart(t))
                }
            },
            DvmEvent::End(t) => {
                if self.set_section(&t, false) {
                    Ok(DvmStep::Continue)
                } else if is_tag(&t, "name") || is_tag(&t, "description") || is_tag(&t, "edges") {
                    Ok(DvmStep::Continue)
                } else if is_tag(&t, "edge") {
                    let rec = MappingRecord {
                        head_name: self.record.head_name.clone(),
                        head_description: self.record.head_description.clone(),
                        tail_name: self.record.tail_name.clone(),
                        tail_description: self.record.tail_description.clone(),
                        datasource: self.record.datasource.clone(),
                        query: self.record.query.clone(),
                        key: self.record.key.clone(),
                        value: self.record.value.clone(),
                    };
                    *self = DvmReader::new();
                    Ok(DvmStep::Record(rec))
                } else {
                    Err(DvmError::UnexpectedEnd(t))
                }
            },
            DvmEvent::Text(t) => match unescape_text(t.as_str()) {
                Ok(u) => self.take_text(u),
                Err(_) => Err(DvmError::InvalidEscape(t)),
            },
            DvmEvent::Eof => Ok(DvmStep::Finished),
        }
    }
}

/// All records of a mapping document, read up to its end; the events after
/// the end of the document are not read.
pub open spec fn spec_read(s: ReaderView, events: Seq<DvmEventView>) -> Result<
    Seq<RecordView>,
    DvmErrorView,
>
    decreases events.len(),
{
    if events.len() == 0 {
        Ok(Seq::empty())
    } else {
        match spec_step(s, events[0]) {
            Err(e) => Err(e),
            Ok((n, DvmStepView::Finished)) => Ok(Seq::empty()),
            Ok((n, DvmStepView::Continue)) => spec_read(n, events.drop_first()),
            Ok((n, DvmStepView::Record(r))) => match spec_read(n, events.drop_first()) {
                Ok(rest) => Ok(seq![r].add(rest)),
                Err(e) => Err(e),
            },
        }
    }
}

/// The views of a sequence of records.
pub open spec fn record_views(v: Seq<MappingRecord>) -> Seq<RecordView> {
    v.map_values(|r: MappingRecord| r@)
}

/// The views of a sequence of events.
pub open spec fn event_views(v: Seq<DvmEvent>) -> Seq<DvmEventView> {
    v.map_values(|e: DvmEvent| e@)
}

/// `done` followed by what `rest` read.
pub open spec fn after(done: Seq<RecordView>, rest: Result<Seq<RecordView>, DvmErrorView>) -> Result<
    Seq<RecordView>,
    DvmErrorView,
> {
    match rest {
        Ok(r) => Ok(done + r),
        Err(e) => Err(e),
    }
}

/// Reads all records of a mapping document from its events.
#[verifier::loop_isolation(false)]
pub fn read_mapping(events: Vec<DvmEvent>) -> (r: Result<Vec<MappingRecord>, DvmError>)
    ensures
        match r {
            Ok(v) => spec_read(fresh_reader(), event_views(events@)) == Ok::<
                Seq<RecordView>,
                DvmErrorView,
            >(record_views(v@)),
            Err(e) => spec_read(fresh_reader(), event_views(events@)) == Err::<
                Seq<RecordView>,
                DvmErrorView,
            >(e@),
        },
{
    let ghost evs = event_views(events@);
    let n = events.len();
    let mut reader = DvmReader::new();
    let mut out: Vec<MappingRecord> = Vec::new();
    let mut rest = events;
    let mut i: usize = 0;
    assert(evs.subrange(0, n as int) =~= evs);
    assert(record_views(out@) + Seq::<RecordView>::empty() =~= Seq::<RecordView>::empty());
    assert(record_views(out@) =~= Seq::<RecordView>::empty());
    while rest.len() > 0
        invariant
            i + rest@.len() == n,
            n == evs.len(),
            event_views(rest@) =~= evs.subrange(i as int, n as int),
            spec_read(fresh_reader(), evs) == after(
                record_views(out@),
                spec_read(reader@, evs.subrange(i as int, n as int)),
            ),
        decreases rest@.len(),
    {
        let ghost tail = evs.subrange(i as int, n as int);
        let ghost done = record_views(out@);
        let ev = rest.remove(0);
        assert(tail[0] == ev@);
        assert(tail.drop_first() =~= evs.subrange(i + 1, n as int));
        assert(event_views(rest@) =~= evs.subrange(i + 1, n as int));
        match reader.step(ev) {
            Err(e) => {
                return Err(e);
            },
            Ok(DvmStep::Finished) => {
                assert(done + Seq::<RecordView>::empty() =~= done);
                return Ok(out);
            },
            Ok(DvmStep::Continue) => {},
            Ok(DvmStep::Record(rec)) => {
                out.push(rec);
                assert(record_views(out@) =~= done.push(rec@));
                assert forall|x: Seq<RecordView>| #![auto] done + (seq![rec@] + x) == record_views(out@) + x by {
                    assert(done + (seq![rec@] + x) =~= record_views(out@) + x);
                }
            },
        }
        i = i + 1;
    }
    assert(record_views(out@) + Seq::<RecordView>::empty() =~= record_views(out@));
    Ok(out)
}

/// Position of a key or value field: decimal digits, optionally after `+`.
pub open spec fn is_digit(c: char) -> bool {
    48 <= (c as u32) <= 57
}

/// The number that a string of decimal digits spells.
pub open spec fn digits_value(s: Seq<char>) -> int
    decreases s.len(),
{
    if s.len() == 0 {
        0
    } else {
        digits_value(s.drop_last()) * 10 + ((s.last() as u32) - 48)
    }
}

/// The digits of a position field, without its optional `+`.
pub open spec fn position_digits(s: Seq<char>) -> Seq<char> {
    if s.len() > 0 && s[0] == '+' {
        s.drop_first()
    } else {
        s
    }
}

/// The position a field spells, if it is a `u32` in decimal.
pub open spec fn spec_position(s: Seq<char>) -> Option<u32> {
    let d = position_digits(s);
    if d.len() > 0 && (forall|i: int| 0 <= i < d.len() ==> is_digit(#[trigger] d[i])) && digits_value(d)
        <= u32::MAX {
        Some(digits_value(d) as u32)
    } else {
        None
    }
}

/// A prefix of a digit string spells no larger a number than the whole.
pub proof fn lemma_digits_value_monotone(d: Seq<char>, k: int)
    requires
        0 <= k <= d.len(),
        forall|i: int| 0 <= i < d.len() ==> is_digit(#[trigger] d[i]),
    ensures
        digits_value(d.subrange(0, k)) <= digits_value(d),
        digits_value(d) >= 0,
    decreases d.len(),
{
    if d.len() > 0 {
        let p = d.drop_last();
        if k == d.len() {
            assert(d.subrange(0, k) =~= d);
            lemma_digits_value_monotone(p, 0);
        } else {
            assert(p.subrange(0, k) =~= d.subrange(0, k));
            lemma_digits_value_monotone(p, k);
        }
    } else {
        assert(d.subrange(0, k) =~= d);
    }
}

/// Reads a position field (`u32::from_str` without sign `-`).
pub fn parse_position(s: &str) -> (r: Option<u32>)
    ensures
        r == spec_position(s@),
{
    let n = s.unicode_len();
    let mut i: usize = 0;
    if n > 0 && s.get_char(0) == '+' {
        i = 1;
    }
    let ghost d = position_digits(s@);
    assert(d =~= s@.subrange(i as int, n as int));
    if i == n {
        assert(d.len() == 0);
        return None;
    }
    let mut val: u64 = 0;
    let start = i;
    while i < n
        invariant
            n == s@.len(),
            start <= i <= n,
            start < n,
            d =~= s@.subrange(start as int, n as int),
            d == position_digits(s@),
            forall|k: int| 0 <= k < i - start ==> is_digit(#[trigger] d[k]),
            val as int == digits_value(d.subrange(0, i - start)),
            val <= u32::MAX,
        decreases n - i,
    {
        let c = s.get_char(i);
        let cu = c as u32;
        if !(48 <= cu && cu <= 57) {
            assert(!is_digit(d[i - start]));
            return None;
        }
        let ghost pre = d.subrange(0, i - start);
        let ghost next = d.subrange(0, i - start + 1);
        assert(next.drop_last() =~= pre);
        val = val * 10 + (cu - 48) as u64;
        if val > u32::MAX as u64 {
            proof {
                if forall|k: int| 0 <= k < d.len() ==> is_digit(#[trigger] d[k]) {
                    lemma_digits_value_monotone(d, i - start + 1);
                }
            }
            return None;
        }
        i = i + 1;
    }
    assert(d.subrange(0, n - start) =~= d);
    Some(val as u32)
}

/// A join edge as the store returns it.
#[derive(Debug, Clone, PartialEq, Eq)]
pub struct Edge {
    pub datasource_name: String,
    pub key_pos: u32,
    pub value_pos: u32,
    pub query: Option<String>,
}

/// A join edge whose key or value field is not a position.
#[derive(Debug, Clone, PartialEq, Eq)]
pub enum EdgeError {
    InvalidPosition(String),
}

impl Edge {
    /// An edge from the fields the store keeps, positions still as text.
    pub fn from_fields(datasource_name: String, query: Option<String>, key: &str, value: &str) -> (r:
        Result<Edge, EdgeError>)
        ensures
            match (spec_position(key@), spec_position(value@)) {
                (Some(k), Some(v)) => r == Ok::<Edge, EdgeError>(
                    Edge { datasource_name, key_pos: k, value_pos: v, query },
                ),
                (None, _) => r matches Err(EdgeError::InvalidPosition(s)) && s@ == key@,
                (Some(_), None) => r matches Err(EdgeError::InvalidPosition(s)) && s@ == value@,
            },
    {
        let key_pos = match parse_position(key) {
            Some(k) => k,
            None => return Err(EdgeError::InvalidPosition(String::from_str(key))),
        };
        let value_pos = match parse_position(value) {
            Some(v) => v,
            None => return Err(EdgeError::InvalidPosition(String::from_str(value))),
        };
        Ok(Edge { datasource_name, key_pos, value_pos, query })
    }
}

} // verus!
