//! Server-sent-event framing: locating the blank-line delimiter that ends a
//! frame, and splitting a frame into its event name and joined data lines.

use crate::strutil::{
    chars_start_with, chars_to_string, copy_range, join_nl, join_nl_chars, split_lines,
    split_lines_chars, starts_with_seq, str_chars, strip_one_space, trim_chars, trim_seq,
};
use vstd::prelude::*;

verus! {

/// One decoded server-sent-event frame: the optional event name and the data
/// lines joined with line feeds.
pub struct SseEvent {
    pub event: Option<String>,
    pub data: String,
}

/// The event name and data lines that a frame's lines yield: an `event:`
/// line sets the name (the last one wins), each `data:` line contributes one
/// data line with at most one leading space stripped, anything else is
/// ignored.
pub open spec fn scan_frame_lines(lines: Seq<Seq<char>>) -> (Option<Seq<char>>, Seq<Seq<char>>)
    decreases lines.len(),
{
    if lines.len() == 0 {
        (None, Seq::empty())
    } else {
        let prior = scan_frame_lines(lines.drop_last());
        let l = lines.last();
        if starts_with_seq(l, "event:"@) {
            (Some(trim_seq(l.skip(6))), prior.1)
        } else if starts_with_seq(l, "data:"@) {
            (prior.0, prior.1 + seq![strip_one_space(l.skip(5))])
        } else {
            prior
        }
    }
}

/// What parsing a raw frame yields: `None` when there is no data line, else
/// the event name and the joined data.
pub open spec fn sse_parse(raw: Seq<char>) -> Option<(Option<Seq<char>>, Seq<char>)> {
    let scanned = scan_frame_lines(split_lines(raw));
    if scanned.1.len() == 0 {
        None
    } else {
        Some((scanned.0, join_nl(scanned.1)))
    }
}

/// Parse one raw frame into its event name and joined data lines.
pub fn parse_sse_event(raw: &str) -> (r: Option<SseEvent>)
    ensures
        match (r, sse_parse(raw@)) {
            (Some(ev), Some(p)) => {
                &&& match ev.event {
                    Some(name) => p.0 == Some(name@),
                    None => p.0 is None,
                }
                &&& ev.data@ == p.1
            },
            (None, None) => true,
            _ => false,
        },
{
    proof {
        reveal_strlit("event:");
        reveal_strlit("data:");
    }
    let chars = str_chars(raw);
    let lines = split_lines_chars(&chars);
    let n = lines.len();
    let mut event: Option<Vec<char>> = None;
    let mut data_lines: Vec<Vec<char>> = Vec::new();
    proof {
        assert(lines.deep_view().take(0) =~= Seq::<Seq<char>>::empty());
        assert(data_lines.deep_view() =~= Seq::<Seq<char>>::empty());
    }
    let mut k: usize = 0;
    while k < n
        invariant
            k <= n,
            n == lines@.len(),
            lines.deep_view() == split_lines(chars@),
            match event {
                Some(e) => scan_frame_lines(lines.deep_view().take(k as int)).0 == Some(e@),
                None => scan_frame_lines(lines.deep_view().take(k as int)).0 is None,
            },
            data_lines.deep_view() == scan_frame_lines(lines.deep_view().take(k as int)).1,
        decreases n - k,
    {
        let ghost lv = lines.deep_view();
        let ghost prior = scan_frame_lines(lv.take(k as int));
        proof {
            reveal_strlit("event:");
            reveal_strlit("data:");
            assert(lv.take(k + 1).drop_last() =~~= lv.take(k as int));
            assert(lv.take(k + 1).last() == lv[k as int]);
            assert(lines@[k as int].deep_view() =~= lines@[k as int]@);
            assert(lv[k as int] == lines@[k as int].deep_view());
        }
        let line = &lines[k];
        if chars_start_with(line, "event:") {
            let rest = copy_range(line, 6, line.len());
            proof {
                assert(rest@ =~= lv[k as int].skip(6));
            }
            event = Some(trim_chars(&rest));
        } else if chars_start_with(line, "data:") {
            let mut rest = copy_range(line, 5, line.len());
            proof {
                assert(rest@ =~= lv[k as int].skip(5));
            }
            if rest.len() > 0 && rest[0] == ' ' {
                rest.remove(0);
                proof {
                    assert(rest@ =~= lv[k as int].skip(5).drop_first());
                }
            }
            let ghost old_dv = data_lines.deep_view();
            proof {
                assert(rest@ == strip_one_space(lv[k as int].skip(5)));
            }
            data_lines.push(rest);
            proof {
                assert(data_lines.deep_view() =~~= old_dv + seq![strip_one_space(
                    lv[k as int].skip(5),
                )]);
            }
        }
        k = k + 1;
    }
    proof {
        assert(lines.deep_view().take(n as int) =~~= lines.deep_view());
    }
    if data_lines.len() == 0 {
        return None;
    }
    let data = join_nl_chars(&data_lines);
    let event_string = match event {
        Some(e) => Some(chars_to_string(&e)),
        None => None,
    };
    Some(SseEvent { event: event_string, data: chars_to_string(&data) })
}

/// A carriage-return/line-feed pair twice over, starting at byte `i`.
pub open spec fn crlf_crlf_at(b: Seq<u8>, i: int) -> bool {
    &&& 0 <= i
    &&& i + 4 <= b.len()
    &&& b[i] == 13u8
    &&& b[i + 1] == 10u8
    &&& b[i + 2] == 13u8
    &&& b[i + 3] == 10u8
}

/// Two line feeds in a row, starting at byte `i`.
pub open spec fn lf_lf_at(b: Seq<u8>, i: int) -> bool {
    &&& 0 <= i
    &&& i + 2 <= b.len()
    &&& b[i] == 10u8
    &&& b[i + 1] == 10u8
}

/// Find the delimiter that ends the earliest complete frame in `buf`.
///
/// The four-byte delimiter is preferred over the two-byte one wherever it
/// stands: only a buffer with no `\r\n\r\n` anywhere is searched for `\n\n`.
pub fn find_sse_delimiter(buf: &Vec<u8>) -> (r: Option<(usize, usize)>)
    ensures
        match r {
            Some(pair) => {
                &&& (pair.1 == 4 || pair.1 == 2)
                &&& pair.1 == 4 ==> {
                    &&& crlf_crlf_at(buf@, pair.0 as int)
                    &&& forall|j: int| 0 <= j < pair.0 ==> !crlf_crlf_at(buf@, j)
                }
                &&& pair.1 == 2 ==> {
                    &&& lf_lf_at(buf@, pair.0 as int)
                    &&& forall|j: int| 0 <= j < pair.0 ==> !lf_lf_at(buf@, j)
                    &&& forall|j: int| !crlf_crlf_at(buf@, j)
                }
            },
            None => {
                &&& forall|j: int| !crlf_crlf_at(buf@, j)
                &&& forall|j: int| !lf_lf_at(buf@, j)
            },
        },
{
    let n = buf.len();
    if n >= 4 {
        let mut i: usize = 0;
        while i <= n - 4
            invariant
                n == buf@.len(),
                4 <= n,
                i <= n - 3,
                forall|j: int| 0 <= j < i ==> !crlf_crlf_at(buf@, j),
            decreases n - i,
        {
            if buf[i] == 13u8 && buf[i + 1] == 10u8 && buf[i + 2] == 13u8 && buf[i + 3] == 10u8 {
                return Some((i, 4));
            }
            i = i + 1;
        }
        assert(forall|j: int| crlf_crlf_at(buf@, j) ==> 0 <= j < i);
    }
    assert(forall|j: int| !crlf_crlf_at(buf@, j));
    if n >= 2 {
        let mut i: usize = 0;
        while i <= n - 2
            invariant
                n == buf@.len(),
                2 <= n,
                i <= n - 1,
                forall|j: int| !crlf_crlf_at(buf@, j),
                forall|j: int| 0 <= j < i ==> !lf_lf_at(buf@, j),
            decreases n - i,
        {
            if buf[i] == 10u8 && buf[i + 1] == 10u8 {
                return Some((i, 2));
            }
            i = i + 1;
        }
        assert(forall|j: int| lf_lf_at(buf@, j) ==> 0 <= j < i);
    }
    assert(forall|j: int| !lf_lf_at(buf@, j));
    None
}

} // verus!
