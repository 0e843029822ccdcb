//! Progress of a transfer: files and bytes done against the totals, when
//! to redraw the line (about once per second on a terminal, every 15
//! seconds otherwise) and the integer parts of the line.

use vstd::prelude::*;
use crate::client::util::{human_size, spec_human_size};
use crate::text::{decimal, decimal_padded, push_decimal, push_decimal_padded, push_str, string_of};

verus! {

/// `hh:mm:ss` of a number of seconds (hours not wrapped, at least two
/// digits each).
pub open spec fn spec_hms(secs: u64) -> Seq<char> {
    decimal_padded((secs / 3600) as nat, 2) + seq![':'] + decimal_padded((secs / 60 % 60) as nat, 2) + seq![':']
        + decimal_padded((secs % 60) as nat, 2)
}

/// `hh:mm:ss` of a number of seconds.
pub fn format_hms(secs: u64) -> (r: String)
    ensures
        r@ == spec_hms(secs),
{
    let mut out: Vec<char> = Vec::new();
    push_decimal_padded(&mut out, secs / 3600, 2);
    out.push(':');
    push_decimal_padded(&mut out, secs / 60 % 60, 2);
    out.push(':');
    push_decimal_padded(&mut out, secs % 60, 2);
    let r = string_of(out.as_slice());
    assert(r@ =~= spec_hms(secs));
    r
}


/// Files and bytes done against the totals.
#[derive(Debug, Clone)]
pub struct Progress {
    pub label: String,
    pub total_files: usize,
    pub total_bytes: u64,
    pub done_files: usize,
    pub done_bytes: u64,
    /// Whether the line is redrawn in place.
    pub tty: bool,
}

impl Progress {
    /// Nothing done yet; `tty` says whether the line is redrawn in place.
    pub fn new(label: &str, total_files: usize, total_bytes: u64, tty: bool) -> (r: Progress)
        ensures
            r.label@ == label@,
            r.total_files == total_files,
            r.total_bytes == total_bytes,
            r.done_files == 0,
            r.done_bytes == 0,
            r.tty == tty,
    {
        Progress {
            label: string_of(crate::text::chars_of(label).as_slice()),
            total_files,
            total_bytes,
            done_files: 0,
            done_bytes: 0,
            tty,
        }
    }

    /// Milliseconds between two redraws: 1000 on a terminal, else 15000.
    pub open spec fn interval_ms(&self) -> u64 {
        if self.tty {
            1000
        } else {
            15000
        }
    }

    /// Counts `files` and `bytes` more, `since_last_ms` milliseconds after
    /// the last redraw; the result says whether the line is due.
    pub fn add(&mut self, files: usize, bytes: u64, since_last_ms: u64) -> (due: bool)
        requires
            old(self).done_files + files <= usize::MAX,
            old(self).done_bytes + bytes <= u64::MAX,
        ensures
            final(self).done_files == old(self).done_files + files,
            final(self).done_bytes == old(self).done_bytes + bytes,
            final(self).label == old(self).label,
            final(self).total_files == old(self).total_files,
            final(self).total_bytes == old(self).total_bytes,
            final(self).tty == old(self).tty,
            due == (since_last_ms >= old(self).interval_ms()),
    {
        self.done_files = self.done_files + files;
        self.done_bytes = self.done_bytes + bytes;
        let every: u64 = if self.tty { 1000 } else { 15000 };
        since_last_ms >= every
    }

    /// `<label>: <done>/<total> files`, the start of the line.
    pub fn count_text(&self) -> (r: String)
        ensures
            r@ == self.label@ + ": "@ + decimal(self.done_files as nat) + seq!['/'] + decimal(
                self.total_files as nat,
            ) + " files"@,
    {
        let mut out: Vec<char> = Vec::new();
        push_str(&mut out, self.label.as_str());
        push_str(&mut out, ": ");
        push_decimal(&mut out, self.done_files as u64);
        out.push('/');
        push_decimal(&mut out, self.total_files as u64);
        push_str(&mut out, " files");
        string_of(out.as_slice())
    }

    /// `<done bytes>/<total bytes>`, both in human units.
    pub fn bytes_text(&self) -> (r: String)
        ensures
            r@ == spec_human_size(self.done_bytes) + seq!['/'] + spec_human_size(self.total_bytes),
    {
        let mut out: Vec<char> = Vec::new();
        let d = human_size(self.done_bytes);
        let t = human_size(self.total_bytes);
        push_str(&mut out, d.as_str());
        out.push('/');
        push_str(&mut out, t.as_str());
        string_of(out.as_slice())
    }

    /// Whether the totals count bytes (else only files).
    pub fn counts_bytes(&self) -> (r: bool)
        ensures
            r == (self.total_bytes != 0),
    {
        self.total_bytes != 0
    }

}

} // verus!
