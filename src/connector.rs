//! What a datasource read does with each record or event once the outside
//! reader has produced it: the key and value are picked out.

use vstd::prelude::*;

use crate::markup::{unescape_of, unescape_text};

verus! {

/// A record that lacks the column a join reads.
#[derive(Debug, Clone, PartialEq, Eq)]
pub enum ReadError {
    MissingPosition(usize),
    /// Text with a malformed or unknown reference.
    InvalidEscape(String),
}

/// The key and value columns of a delimited record.
pub fn pair_at(record: &Vec<String>, key_pos: usize, value_pos: usize) -> (r: Result<(String, String), ReadError>)
    ensures
        key_pos >= record@.len() ==> r == Err::<(String, String), ReadError>(
            ReadError::MissingPosition(key_pos),
        ),
        key_pos < record@.len() && value_pos >= record@.len() ==> r == Err::<
            (String, String),
            ReadError,
        >(ReadError::MissingPosition(value_pos)),
        key_pos < record@.len() && value_pos < record@.len() ==> (r matches Ok((k, v)) && k@
            == record@[key_pos as int]@ && v@ == record@[value_pos as int]@),
{
    if key_pos >= record.len() {
        return Err(ReadError::MissingPosition(key_pos));
    }
    if value_pos >= record.len() {
        return Err(ReadError::MissingPosition(value_pos));
    }
    Ok((record[key_pos].clone(), record[value_pos].clone()))
}

/// An event of a tag/value document: an element opens (its local name),
/// text as it stands in the document, or an element closes.
#[derive(Debug, Clone, PartialEq, Eq)]
pub enum DocEvent {
    Start(String),
    Text(String),
    End,
}

/// A single pass over a tag/value document: the last opened element's name
/// is the key, the last text its value; a pair is produced when an element
/// closes with both known, and both are forgotten at every close.
pub struct DocScanner {
    pub key: Option<String>,
    pub value: Option<String>,
}

impl DocScanner {
    /// A scanner at the start of a document.
    pub fn new() -> (r: DocScanner)
        ensures
            r.key is None,
            r.value is None,
    {
        DocScanner { key: None, value: None }
    }

    /// Consumes one event; yields the pair it completes, if any. Text has its
    /// references resolved; a malformed one is an error and changes nothing.
    pub fn step(&mut self, ev: DocEvent) -> (r: Result<Option<(String, String)>, ReadError>)
        ensures
            match ev {
                DocEvent::Start(n) => r == Ok::<Option<(String, String)>, ReadError>(None)
                    && final(self).key == Some(n) && final(self).value == old(self).value,
                DocEvent::Text(t) => match unescape_of(t@) {
                    Some(u) => {
                        &&& r == Ok::<Option<(String, String)>, ReadError>(None)
                        &&& final(self).key == old(self).key
                        &&& (final(self).value matches Some(v) && v@ == u)
                    },
                    None => r == Err::<Option<(String, String)>, ReadError>(
                        ReadError::InvalidEscape(t),
                    ) && *final(self) == *old(self),
                },
                DocEvent::End => {
                    &&& final(self).key is None
                    &&& final(self).value is None
                    &&& match (old(self).key, old(self).value) {
                        (Some(k), Some(v)) => r == Ok::<Option<(String, String)>, ReadError>(
                            Some((k, v)),
                        ),
                        _ => r == Ok::<Option<(String, String)>, ReadError>(None),
                    }
                },
            },
    {
        match ev {
            DocEvent::Start(n) => {
                self.key = Some(n);
                Ok(None)
            },
            DocEvent::Text(t) => match unescape_text(t.as_str()) {
                Ok(u) => {
                    self.value = Some(u);
                    Ok(None)
                },
                Err(_) => Err(ReadError::InvalidEscape(t)),
            },
            DocEvent::End => {
                let k = self.key.take();
                let v = self.value.take();
                match (k, v) {
                    (Some(k), Some(v)) => Ok(Some((k, v))),
                    _ => Ok(None),
                }
            },
        }
    }
}

} // verus!
