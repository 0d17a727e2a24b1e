use vstd::prelude::*;

use crate::errors::M4Error;

verus! {

/// The four single-byte delimiters that drive the scanner: a comment pair and
/// a quote pair. Only single-byte delimiters are supported; setting one of any
/// other length is rejected.
pub struct Delimiters {
    pub comment_start: u8,
    pub comment_end: u8,
    pub quote_start: u8,
    pub quote_end: u8,
}

impl Delimiters {
    /// The default delimiters: `#` and newline for comments, backtick and
    /// apostrophe for quotes.
    pub fn new() -> (d: Delimiters)
        ensures
            d.comment_start == 35,
            d.comment_end == 10,
            d.quote_start == 96,
            d.quote_end == 39,
    {
        Delimiters { comment_start: 35, comment_end: 10, quote_start: 96, quote_end: 39 }
    }

    /// Replaces the comment delimiters. Each side must be exactly one byte;
    /// any other length is rejected and the configuration is left unchanged.
    pub fn set_comment(&mut self, start: &Vec<u8>, end: &Vec<u8>) -> (r: Result<(), M4Error>)
        ensures
            start@.len() == 1 && end@.len() == 1 ==> r is Ok && final(self).comment_start
                == start@[0] && final(self).comment_end == end@[0] && final(self).quote_start
                == old(self).quote_start && final(self).quote_end == old(self).quote_end,
            start@.len() != 1 || end@.len() != 1 ==> r == Err::<(), M4Error>(
                M4Error::UnsupportedDelimiterLength,
            ) && *final(self) == *old(self),
    {
        if start.len() == 1 && end.len() == 1 {
            self.comment_start = start[0];
            self.comment_end = end[0];
            Ok(())
        } else {
            Err(M4Error::UnsupportedDelimiterLength)
        }
    }

    /// Replaces the quote delimiters. Each side must be exactly one byte;
    /// any other length is rejected and the configuration is left unchanged.
    pub fn set_quote(&mut self, start: &Vec<u8>, end: &Vec<u8>) -> (r: Result<(), M4Error>)
        ensures
            start@.len() == 1 && end@.len() == 1 ==> r is Ok && final(self).quote_start
                == start@[0] && final(self).quote_end == end@[0] && final(self).comment_start
                == old(self).comment_start && final(self).comment_end == old(self).comment_end,
            start@.len() != 1 || end@.len() != 1 ==> r == Err::<(), M4Error>(
                M4Error::UnsupportedDelimiterLength,
            ) && *final(self) == *old(self),
    {
        if start.len() == 1 && end.len() == 1 {
            self.quote_start = start[0];
            self.quote_end = end[0];
            Ok(())
        } else {
            Err(M4Error::UnsupportedDelimiterLength)
        }
    }
}

} // verus!
