use vstd::prelude::*;
use vstd::string::StringExecFns;

use crate::records::Record;
use crate::records::Records;
use crate::strutil::dec_str;
use crate::strutil::u64_to_dec;
use crate::strutil::usize_to_dec;

verus! {

/// The structured outcome of a failed verification: the first position at
/// which the pattern's expectation and the trace diverge, the sorted and
/// deduplicated identifiers that were expected there, the full drained
/// trace, the caller's message, and the verifying session's thread.
pub struct CallMismatchError {
    pub msg: String,
    pub actual: Records,
    pub expect: Vec<String>,
    pub mismatch_index: usize,
    pub thread_id: u64,
}

/// A line wrapped in the ANSI sequences that turn it red and reset.
pub open spec fn red_wrap(s: Seq<char>) -> Seq<char> {
    "\u{1b}[31m"@ + s + "\u{1b}[0m"@
}

/// One summary line: the mismatched entry is marked and, with colour on,
/// highlighted.
pub open spec fn item_summary_line(is_mismatch: bool, id: Seq<char>, color: bool) -> Seq<char> {
    let head: Seq<char> = if is_mismatch {
        "* "@
    } else {
        "  "@
    };
    if is_mismatch && color {
        red_wrap(head + id) + "\n"@
    } else {
        (head + id) + "\n"@
    }
}

/// The identifier shown for a trace position: the entry's own, or the end
/// marker one step past the last entry.
pub open spec fn shown_id(rs: Seq<Record>, index: int) -> Seq<char> {
    if 0 <= index < rs.len() {
        rs[index].id@
    } else {
        "(end)"@
    }
}

/// The first position of the summary window around the mismatch.
pub open spec fn window_start(mismatch_index: int, around: int) -> int {
    if mismatch_index > around {
        mismatch_index - around
    } else {
        0
    }
}

/// One past the last trace position of the summary window.
pub open spec fn window_end(rs: Seq<Record>, mismatch_index: int, around: int) -> int {
    if mismatch_index + around + 1 < rs.len() {
        mismatch_index + around + 1
    } else {
        rs.len() as int
    }
}

/// The summary lines for trace positions `start` up to `i`.
pub open spec fn summary_items_upto(
    rs: Seq<Record>,
    start: int,
    i: int,
    mismatch_index: int,
    color: bool,
) -> Seq<char>
    decreases i - start,
{
    if i <= start {
        Seq::<char>::empty()
    } else {
        summary_items_upto(rs, start, i - 1, mismatch_index, color) + item_summary_line(
            mismatch_index == i - 1,
            shown_id(rs, i - 1),
            color,
        )
    }
}

/// The count of entries omitted before the window, as a line.
pub open spec fn omitted_previous_line(start: int) -> Seq<char> {
    "  ...(previous "@ + dec_str(start as nat) + " calls omitted)\n"@
}

/// The count of entries omitted after the window, as a line.
pub open spec fn omitted_following_line(count: int) -> Seq<char> {
    "  ...(following "@ + dec_str(count as nat) + " calls omitted)\n"@
}

/// The whole windowed summary of the trace around the mismatch.
pub open spec fn summary_section(
    rs: Seq<Record>,
    mismatch_index: int,
    around: int,
    color: bool,
) -> Seq<char> {
    let start = window_start(mismatch_index, around);
    let end = window_end(rs, mismatch_index, around);
    let head: Seq<char> = if start > 0 {
        omitted_previous_line(start)
    } else {
        Seq::<char>::empty()
    };
    let items = summary_items_upto(rs, start, end, mismatch_index, color);
    let tail: Seq<char> = if end == rs.len() {
        item_summary_line(mismatch_index == rs.len(), "(end)"@, color)
    } else {
        omitted_following_line(rs.len() - end)
    };
    head + items + tail
}

/// Whether any entry of the trace carries a captured backtrace.
pub open spec fn spec_has_backtrace(rs: Seq<Record>) -> bool {
    exists|i: int| 0 <= i < rs.len() && (#[trigger] rs[i]).backtrace is Some
}

/// The backtrace text shown for one entry.
pub open spec fn shown_backtrace(r: Record) -> Seq<char> {
    match r.backtrace {
        Some(b) => b@,
        None => "(backtrace unavailable)"@,
    }
}

/// One entry of the backtrace section: identifier, source location, thread
/// and backtrace.
pub open spec fn backtrace_item(r: Record) -> Seq<char> {
    "# "@ + r.id@ + "\n"@ + r.file@ + ":"@ + dec_str(r.line as nat) + "\n"@ + "thread: "@
        + dec_str(r.thread_id as nat) + "\n"@ + shown_backtrace(r) + "\n"@
}

/// The backtrace entries for trace positions `start` up to `i`.
pub open spec fn backtrace_items_upto(rs: Seq<Record>, start: int, i: int) -> Seq<char>
    decreases i - start,
{
    if i <= start {
        Seq::<char>::empty()
    } else {
        backtrace_items_upto(rs, start, i - 1) + backtrace_item(rs[i - 1])
    }
}

/// One past the last position of the backtrace window: it stops at the
/// mismatched entry.
pub open spec fn backtrace_end(rs: Seq<Record>, mismatch_index: int) -> int {
    if mismatch_index + 1 < rs.len() {
        mismatch_index + 1
    } else {
        rs.len() as int
    }
}

/// The whole backtrace section of the report.
pub open spec fn backtrace_section(rs: Seq<Record>, mismatch_index: int, around: int) -> Seq<
    char,
> {
    let start = window_start(mismatch_index, around);
    let end = backtrace_end(rs, mismatch_index);
    let head: Seq<char> = if start > 0 {
        "# ...(previous "@ + dec_str(start as nat) + " calls omitted)\n"@
    } else {
        Seq::<char>::empty()
    };
    let items = backtrace_items_upto(rs, start, end);
    let tail: Seq<char> = if end == rs.len() {
        "# (end)\n"@
    } else {
        omitted_following_line(rs.len() - end)
    };
    head + items + tail
}

/// The expected identifiers joined by a comma and a space.
pub open spec fn joined_upto(xs: Seq<Seq<char>>, i: int) -> Seq<char>
    decreases i,
{
    if i <= 0 {
        Seq::<char>::empty()
    } else if i == 1 {
        xs[0]
    } else {
        joined_upto(xs, i - 1) + ", "@ + xs[i - 1]
    }
}

/// The whole rendered report: the optional backtrace section, the windowed
/// trace summary with the mismatch marked, the message, the source location
/// of the mismatched entry when one exists, the session thread when
/// backtraces were asked for, and the actual and expected identifiers.
pub open spec fn render_report(e: CallMismatchError, backtrace: bool, color: bool) -> Seq<
    char,
> {
    let rs = e.actual.0@;
    let mi = e.mismatch_index as int;
    let bt: Seq<char> = if backtrace && spec_has_backtrace(rs) {
        "actual calls with backtrace :\n"@ + backtrace_section(rs, mi, 5) + "\n"@
    } else {
        Seq::<char>::empty()
    };
    let location: Seq<char> = if 0 <= mi < rs.len() {
        rs[mi].file@ + ":"@ + dec_str(rs[mi].line as nat) + "\n"@
    } else {
        Seq::<char>::empty()
    };
    let thread_line: Seq<char> = if backtrace {
        "thread : "@ + dec_str(e.thread_id as nat) + "\n"@
    } else {
        Seq::<char>::empty()
    };
    bt + "actual calls :\n"@ + summary_section(rs, mi, 5, color) + "\n"@ + e.msg@ + "\n"@
        + location + thread_line + "actual : "@ + shown_id(rs, mi) + "\n"@ + "expect : "@
        + joined_upto(e.expect.deep_view(), e.expect.deep_view().len() as int) + "\n"@
}

/// Relies on yansi's `Style::prefix` and `Style::suffix`, which render a
/// style's ANSI sequences unconditionally: for a plain red foreground they
/// are the red SGR sequence and the reset sequence, around the text as it
/// is.
#[verifier::external_body]
fn paint_red(s: &str) -> (r: String)
    ensures
        r@ == red_wrap(s@),
{
    let style = yansi::Style::new().red();
    format!("{}{}{}", style.prefix(), s, style.suffix())
}

impl Records {
    /// Whether any entry of the trace carries a captured backtrace.
    pub fn has_backtrace(&self) -> (r: bool)
        ensures
            r == spec_has_backtrace(self.0@),
    {
        let mut i: usize = 0;
        while i < self.0.len()
            invariant
                i <= self.0@.len(),
                forall|k: int| 0 <= k < i ==> !((#[trigger] self.0@[k]).backtrace is Some),
            decreases self.0@.len() - i,
        {
            if self.0[i].backtrace.is_some() {
                return true;
            }
            i = i + 1;
        }
        false
    }

    /// The identifier shown for a trace position, the end marker included.
    pub fn id_at(&self, index: usize) -> (r: String)
        ensures
            r@ == shown_id(self.0@, index as int),
    {
        if index < self.0.len() {
            self.0[index].id.clone()
        } else {
            "(end)".to_owned()
        }
    }

    /// Renders the windowed summary of the trace around the mismatch.
    pub fn fmt_summary(&self, mismatch_index: usize, around: usize, color: bool) -> (r: String)
        requires
            mismatch_index <= self.0@.len(),
        ensures
            r@ == summary_section(self.0@, mismatch_index as int, around as int, color),
    {
        let ghost rs = self.0@;
        let ghost mi = mismatch_index as int;
        let len = self.0.len();
        let start: usize = if mismatch_index > around {
            mismatch_index - around
        } else {
            0
        };
        let end: usize = if mismatch_index < len && (len - mismatch_index) - 1 > around {
            mismatch_index + around + 1
        } else {
            len
        };
        proof {
            assert(start as int == window_start(mi, around as int));
            assert(end as int == window_end(rs, mi, around as int));
        }
        let mut s = String::new();
        if start > 0 {
            s.append("  ...(previous ");
            let n = usize_to_dec(start);
            s.append(n.as_str());
            s.append(" calls omitted)\n");
            proof {
                assert(s@ =~= omitted_previous_line(start as int));
            }
        }
        let ghost head = s@;
        let mut i: usize = start;
        while i < end
            invariant
                start <= i <= end,
                end <= self.0@.len(),
                rs == self.0@,
                mi == mismatch_index as int,
                s@ == head + summary_items_upto(rs, start as int, i as int, mi, color),
            decreases end - i,
        {
            let line = self.fmt_item_summary(mismatch_index == i, &self.id_at(i), color);
            s.append(line.as_str());
            proof {
                assert(s@ =~= head + summary_items_upto(rs, start as int, i as int + 1, mi, color));
            }
            i = i + 1;
        }
        if end == len {
            let line = self.fmt_item_summary(mismatch_index == len, &"(end)".to_owned(), color);
            s.append(line.as_str());
        } else {
            s.append("  ...(following ");
            let n = usize_to_dec(len - end);
            s.append(n.as_str());
            s.append(" calls omitted)\n");
        }
        proof {
            assert(s@ =~= summary_section(rs, mi, around as int, color));
        }
        s
    }

    /// Renders one summary line.
    fn fmt_item_summary(&self, is_mismatch: bool, id: &String, color: bool) -> (r: String)
        ensures
            r@ == item_summary_line(is_mismatch, id@, color),
    {
        let mut body = String::new();
        if is_mismatch {
            body.append("* ");
        } else {
            body.append("  ");
        }
        body.append(id.as_str());
        if is_mismatch && color {
            let mut painted = paint_red(body.as_str());
            painted.append("\n");
            painted
        } else {
            body.append("\n");
            body
        }
    }

    /// Renders the backtrace section: every windowed entry up to and
    /// including the mismatched one, with location, thread and backtrace.
    pub fn fmt_backtrace(&self, mismatch_index: usize, around: usize) -> (r: String)
        requires
            mismatch_index <= self.0@.len(),
        ensures
            r@ == backtrace_section(self.0@, mismatch_index as int, around as int),
    {
        let ghost rs = self.0@;
        let ghost mi = mismatch_index as int;
        let len = self.0.len();
        let start: usize = if mismatch_index > around {
            mismatch_index - around
        } else {
            0
        };
        let end: usize = if mismatch_index < len && len - mismatch_index > 1 {
            mismatch_index + 1
        } else {
            len
        };
        proof {
            assert(start as int == window_start(mi, around as int));
            assert(end as int == backtrace_end(rs, mi));
        }
        let mut s = String::new();
        if start > 0 {
            s.append("# ...(previous ");
            let n = usize_to_dec(start);
            s.append(n.as_str());
            s.append(" calls omitted)\n");
        }
        let ghost head = s@;
        let mut i: usize = start;
        while i < end
            invariant
                start <= i <= end,
                end <= self.0@.len(),
                rs == self.0@,
                s@ == head + backtrace_items_upto(rs, start as int, i as int),
            decreases end - i,
        {
            let r = &self.0[i];
            let mut item = String::new();
            item.append("# ");
            item.append(r.id.as_str());
            item.append("\n");
            item.append(r.file.as_str());
            item.append(":");
            let n = u64_to_dec(r.line as u64);
            item.append(n.as_str());
            item.append("\n");
            item.append("thread: ");
            let t = u64_to_dec(r.thread_id);
            item.append(t.as_str());
            item.append("\n");
            match &r.backtrace {
                Some(b) => item.append(b.as_str()),
                None => item.append("(backtrace unavailable)"),
            }
            item.append("\n");
            proof {
                assert(item@ =~= backtrace_item(rs[i as int]));
            }
            s.append(item.as_str());
            proof {
                assert(s@ =~= head + backtrace_items_upto(rs, start as int, i as int + 1));
            }
            i = i + 1;
        }
        if end == len {
            s.append("# (end)\n");
        } else {
            s.append("  ...(following ");
            let n = usize_to_dec(len - end);
            s.append(n.as_str());
            s.append(" calls omitted)\n");
        }
        proof {
            assert(s@ =~= backtrace_section(rs, mi, around as int));
        }
        s
    }
}

impl CallMismatchError {
    /// Renders the report: with `backtrace` the per-entry backtrace section
    /// and the session thread are included, with `color` the mismatched
    /// summary line is highlighted.
    #[verifier::rlimit(80)]
    pub fn display(&self, backtrace: bool, color: bool) -> (r: String)
        requires
            self.mismatch_index <= self.actual.0@.len(),
        ensures
            r@ == render_report(*self, backtrace, color),
    {
        let around: usize = 5;
        let mut s = String::new();
        if backtrace && self.actual.has_backtrace() {
            s.append("actual calls with backtrace :\n");
            let bt = self.actual.fmt_backtrace(self.mismatch_index, around);
            s.append(bt.as_str());
            s.append("\n");
        }
        s.append("actual calls :\n");
        let summary = self.actual.fmt_summary(self.mismatch_index, around, color);
        s.append(summary.as_str());
        s.append("\n");
        s.append(self.msg.as_str());
        s.append("\n");
        if self.mismatch_index < self.actual.0.len() {
            let r = &self.actual.0[self.mismatch_index];
            s.append(r.file.as_str());
            s.append(":");
            let n = u64_to_dec(r.line as u64);
            s.append(n.as_str());
            s.append("\n");
        }
        if backtrace {
            s.append("thread : ");
            let t = u64_to_dec(self.thread_id);
            s.append(t.as_str());
            s.append("\n");
        }
        s.append("actual : ");
        let aid = self.actual.id_at(self.mismatch_index);
        s.append(aid.as_str());
        s.append("\n");
        s.append("expect : ");
        let joined = join_ids(&self.expect);
        s.append(joined.as_str());
        s.append("\n");
        proof {
            assert(s@ =~= render_report(*self, backtrace, color));
        }
        s
    }
}

/// Joins identifiers with a comma and a space.
fn join_ids(xs: &Vec<String>) -> (r: String)
    ensures
        r@ == joined_upto(xs.deep_view(), xs.deep_view().len() as int),
{
    let mut s = String::new();
    let mut i: usize = 0;
    proof {
        assert(xs.deep_view().len() == xs@.len());
    }
    while i < xs.len()
        invariant
            i <= xs@.len(),
            xs.deep_view().len() == xs@.len(),
            forall|k: int| 0 <= k < xs@.len() ==> xs.deep_view()[k] == xs@[k]@,
            s@ == joined_upto(xs.deep_view(), i as int),
        decreases xs@.len() - i,
    {
        if i > 0 {
            s.append(", ");
        }
        s.append(xs[i].as_str());
        proof {
            assert(s@ =~= joined_upto(xs.deep_view(), i as int + 1));
        }
        i = i + 1;
    }
    s
}

} // verus!
