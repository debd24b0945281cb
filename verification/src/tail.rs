//! The last lines of a log, newest first, read backwards in chunks.

use vstd::prelude::*;

use crate::text;
use crate::utf8;

verus! {

/// How many bytes are read at once.
pub const CHUNK: usize = 8192;

/// The byte that ends a line.
pub const NEWLINE: u8 = 10;

/// The byte that may stand before it.
pub const RETURN: u8 = 13;

/// Where the last newline stands; -1 where there is none.
pub open spec fn last_newline(s: Seq<u8>) -> int
    decreases s.len(),
{
    if s.len() == 0 {
        -1
    } else if s.last() == NEWLINE {
        s.len() - 1
    } else {
        last_newline(s.drop_last())
    }
}

/// The last `n` lines of `s`, newest first, where newlines stand between lines. An empty first
/// line is none.
pub open spec fn newest_lines(s: Seq<u8>, n: nat) -> Seq<Seq<u8>>
    decreases n,
{
    if n == 0 {
        Seq::empty()
    } else {
        let k = last_newline(s);
        if k >= 0 {
            seq![s.skip(k + 1)] + newest_lines(s.take(k), (n - 1) as nat)
        } else if s.len() > 0 {
            seq![s]
        } else {
            Seq::empty()
        }
    }
}

/// `s` without the newline that it may end in.
pub open spec fn unterminated(s: Seq<u8>) -> Seq<u8> {
    if s.len() > 0 && s.last() == NEWLINE {
        s.drop_last()
    } else {
        s
    }
}

/// The last `limit` lines of a file, newest first.
pub open spec fn file_lines(content: Seq<u8>, limit: nat) -> Seq<Seq<u8>> {
    newest_lines(unterminated(content), limit)
}

/// How far a file has been read.
pub struct Reading {
    /// What stands before this position has not been read.
    pub position: nat,
    /// What has been read and not been handed out.
    pub buffer: Seq<u8>,
    /// Whether nothing has been read yet.
    pub fresh: bool,
    /// How many more lines are wanted.
    pub left: nat,
}

/// What a reader does next.
pub enum Progress {
    /// It needs these bytes of the file.
    Read { position: nat, length: nat },
    /// It hands out a line.
    Line(Seq<u8>),
    /// It is done.
    Finished,
}

/// How many bytes are read next.
pub open spec fn chunk_length(position: nat) -> nat {
    if position < CHUNK {
        position
    } else {
        CHUNK as nat
    }
}

/// What a reader does next, and how far it has come then.
pub open spec fn advanced(r: Reading) -> (Reading, Progress) {
    let k = last_newline(r.buffer);
    if r.left == 0 {
        (r, Progress::Finished)
    } else if k >= 0 {
        (
            Reading { buffer: r.buffer.take(k), left: (r.left - 1) as nat, ..r },
            Progress::Line(r.buffer.skip(k + 1)),
        )
    } else if r.position > 0 {
        let n = chunk_length(r.position);
        (r, Progress::Read { position: (r.position - n) as nat, length: n })
    } else if r.buffer.len() > 0 {
        (
            Reading { buffer: Seq::empty(), left: (r.left - 1) as nat, ..r },
            Progress::Line(r.buffer),
        )
    } else {
        (r, Progress::Finished)
    }
}

/// How far a reader has come with the bytes that it asked for.
pub open spec fn supplied(r: Reading, chunk: Seq<u8>) -> Reading {
    let bytes = chunk + r.buffer;
    Reading {
        position: (r.position - chunk.len()) as nat,
        buffer: if r.fresh {
            unterminated(bytes)
        } else {
            bytes
        },
        fresh: false,
        left: r.left,
    }
}

/// A reader that has read nothing of a file yet.
pub open spec fn unread(length: nat, limit: nat) -> Reading {
    Reading { position: length, buffer: Seq::empty(), fresh: true, left: limit }
}

/// What a reader does next.
#[derive(Debug)]
pub enum TailStep {
    /// It needs these bytes of the file (`TailReader::supply`).
    Read { position: u64, length: usize },
    /// It hands out a line.
    Line(Vec<u8>),
    /// It is done.
    Finished,
}

impl View for TailStep {
    type V = Progress;

    open spec fn view(&self) -> Progress {
        match self {
            TailStep::Read { position, length } => Progress::Read {
                position: *position as nat,
                length: *length as nat,
            },
            TailStep::Line(line) => Progress::Line(line@),
            TailStep::Finished => Progress::Finished,
        }
    }
}

/// Reads the last lines of a file, newest first. It says which bytes of the file it needs.
#[derive(Debug)]
pub struct TailReader {
    position: u64,
    buffer: Vec<u8>,
    fresh: bool,
    left: usize,
}

impl View for TailReader {
    type V = Reading;

    closed spec fn view(&self) -> Reading {
        Reading {
            position: self.position as nat,
            buffer: self.buffer@,
            fresh: self.fresh,
            left: self.left as nat,
        }
    }
}

impl TailReader {
    /// A reader of the last `limit` lines of a file of this length.
    pub fn new(length: u64, limit: usize) -> (reader: TailReader)
        ensures
            reader@ == unread(length as nat, limit as nat),
    {
        let reader = TailReader { position: length, buffer: Vec::new(), fresh: true, left: limit };
        assert(reader@.buffer =~= Seq::<u8>::empty());
        reader
    }

    /// How many bytes the reader asks for when it asks.
    pub fn wanted(&self) -> (n: usize)
        ensures
            n == chunk_length(self@.position),
    {
        if self.position < CHUNK as u64 {
            self.position as usize
        } else {
            CHUNK
        }
    }

    /// Takes the bytes that the reader asked for.
    pub fn supply(&mut self, chunk: &[u8])
        requires
            chunk@.len() == chunk_length(old(self)@.position),
        ensures
            final(self)@ == supplied(old(self)@, chunk@),
    {
        let ghost before = self.buffer@;
        let ghost was_fresh = self.fresh;
        let mut bytes = vstd::slice::slice_to_vec(chunk);
        bytes.append(&mut self.buffer);
        assert(bytes@ =~= chunk@ + before);
        if self.fresh && bytes.len() > 0 && bytes[bytes.len() - 1] == NEWLINE {
            let end = bytes.len() - 1;
            bytes.truncate(end);
            assert(bytes@ =~= (chunk@ + before).drop_last());
        }
        self.buffer = bytes;
        self.fresh = false;
        self.position = self.position - chunk.len() as u64;
    }
}

/// Where the last newline stands, if there is one.
fn find_newline(s: &[u8]) -> (r: Option<usize>)
    ensures
        match r {
            Some(k) => last_newline(s@) == k,
            None => last_newline(s@) == -1,
        },
{
    let mut end: usize = s.len();
    assert(s@.take(end as int) =~= s@);
    while end > 0
        invariant
            end <= s@.len(),
            last_newline(s@.take(end as int)) == last_newline(s@),
        decreases end,
    {
        assert(s@.take(end as int).last() == s@[end - 1]);
        assert(s@.take(end as int).drop_last() =~= s@.take(end - 1));
        if s[end - 1] == NEWLINE {
            return Some(end - 1);
        }
        end -= 1;
    }
    None
}

/// What the reader does next, newest line first.
pub fn for_tail_lines_newest_first(reader: &mut TailReader) -> (step: TailStep)
    ensures
        (final(reader)@, step@) == advanced(old(reader)@),
{
    if reader.left == 0 {
        return TailStep::Finished;
    }
    let ghost before = reader.buffer@;
    let end = reader.buffer.len();
    match find_newline(reader.buffer.as_slice()) {
        Some(k) => {
            proof {
                lemma_last_newline(before);
            }
            let line = vstd::slice::slice_to_vec(
                vstd::slice::slice_subrange(reader.buffer.as_slice(), k + 1, end),
            );
            assert(line@ =~= before.skip(k as int + 1));
            reader.buffer.truncate(k);
            assert(reader.buffer@ =~= before.take(k as int));
            reader.left = reader.left - 1;
            TailStep::Line(line)
        },
        None => {
            if reader.position > 0 {
                let length = reader.wanted();
                TailStep::Read { position: reader.position - length as u64, length }
            } else if reader.buffer.len() > 0 {
                let line = vstd::slice::slice_to_vec(reader.buffer.as_slice());
                reader.buffer = Vec::new();
                assert(reader.buffer@ =~= Seq::<u8>::empty());
                reader.left = reader.left - 1;
                TailStep::Line(line)
            } else {
                TailStep::Finished
            }
        },
    }
}

proof fn lemma_last_newline(s: Seq<u8>)
    ensures
        -1 <= last_newline(s) < s.len(),
        last_newline(s) >= 0 ==> s[last_newline(s)] == NEWLINE,
        forall|i: int| last_newline(s) < i < s.len() ==> s[i] != NEWLINE,
    decreases s.len(),
{
    if s.len() > 0 && s.last() != NEWLINE {
        lemma_last_newline(s.drop_last());
        assert forall|i: int| last_newline(s) < i < s.len() implies s[i] != NEWLINE by {
            if i < s.len() - 1 {
                assert(s[i] == s.drop_last()[i]);
            }
        }
    }
}

/// The text of a line, without the carriage return that it may end in.
pub open spec fn line_text(line: Seq<u8>) -> Seq<char> {
    utf8::shown_text(
        if line.len() > 0 && line.last() == RETURN {
            line.drop_last()
        } else {
            line
        },
    )
}

/// The text of a line, without the carriage return that it may end in.
pub fn handle_tail_line(bytes: &[u8]) -> (r: String)
    ensures
        r@ == line_text(bytes@),
{
    if bytes.len() > 0 && bytes[bytes.len() - 1] == RETURN {
        let line = vstd::slice::slice_subrange(bytes, 0, bytes.len() - 1);
        assert(line@ =~= bytes@.drop_last());
        utf8::text_lossy(line)
    } else {
        utf8::text_lossy(bytes)
    }
}

/// The directory and the command of a line of the log, which stand behind its first and its
/// second tab.
pub open spec fn log_fields(line: Seq<char>) -> Option<(Seq<char>, Seq<char>)> {
    match text::split_first(line, '\t') {
        Some((_, rest)) => text::split_first(rest, '\t'),
        None => None,
    }
}

/// The directory and the command of a line of the log.
pub fn parse_pwdlog_line(line: &str) -> (r: Option<(String, String)>)
    ensures
        match r {
            Some(fields) => log_fields(line@) == Some((fields.0@, fields.1@)),
            None => log_fields(line@) is None,
        },
{
    let chars = text::chars_of(line);
    match text::split_once(chars.as_slice(), '\t') {
        Some((_, rest)) => match text::split_once(rest, '\t') {
            Some((logged_cwd, command)) => Some(
                (text::string_of(logged_cwd), text::string_of(command)),
            ),
            None => None,
        },
        None => None,
    }
}

/// A line that is written as three fields with tabs between them is read back, where the first
/// two hold no tab.
pub proof fn law_log_line_is_read_back(stamp: Seq<char>, cwd: Seq<char>, command: Seq<char>)
    requires
        !stamp.contains('\t'),
        !cwd.contains('\t'),
    ensures
        log_fields(stamp.push('\t') + (cwd.push('\t') + command)) == Some((cwd, command)),
{
    text::law_sides_are_read_back(stamp, '\t', cwd.push('\t') + command);
    text::law_sides_are_read_back(cwd, '\t', command);
}

/// Whether a reader may have come this far in a file: it has read nothing while it is fresh, and
/// what it has not read is in the file.
pub open spec fn reads(r: Reading, content: Seq<u8>) -> bool {
    &&& r.position <= content.len()
    &&& r.fresh ==> r.buffer.len() == 0
}

/// The lines that a reader still has to hand out of a file.
pub open spec fn remaining(r: Reading, content: Seq<u8>) -> Seq<Seq<u8>> {
    let bytes = content.take(r.position as int) + r.buffer;
    newest_lines(
        if r.fresh {
            unterminated(bytes)
        } else {
            bytes
        },
        r.left,
    )
}

/// All that a reader hands out of a file that it is given the bytes of.
pub open spec fn delivered(r: Reading, content: Seq<u8>) -> Seq<Seq<u8>>
    decreases r.position, r.left,
{
    let (next, progress) = advanced(r);
    match progress {
        Progress::Line(line) => seq![line] + delivered(next, content),
        Progress::Read { position, length } => if r.position <= content.len() {
            delivered(
                supplied(next, content.subrange(position as int, (position + length) as int)),
                content,
            )
        } else {
            Seq::empty()
        },
        Progress::Finished => Seq::empty(),
    }
}

proof fn lemma_last_newline_of_both(a: Seq<u8>, b: Seq<u8>)
    ensures
        last_newline(a + b) == if last_newline(b) >= 0 {
            a.len() + last_newline(b)
        } else {
            last_newline(a)
        },
    decreases b.len(),
{
    if b.len() == 0 {
        assert(a + b =~= a);
    } else {
        assert((a + b).last() == b.last());
        assert((a + b).drop_last() =~= a + b.drop_last());
        lemma_last_newline_of_both(a, b.drop_last());
    }
}

/// A line that a reader hands out is the first of those that it had to hand out, and it has the
/// others to hand out then.
pub proof fn law_line_is_next(r: Reading, content: Seq<u8>)
    requires
        reads(r, content),
        advanced(r).1 is Line,
    ensures
        reads(advanced(r).0, content),
        remaining(r, content) == seq![advanced(r).1->Line_0] + remaining(advanced(r).0, content),
{
    let head = content.take(r.position as int);
    let next = advanced(r).0;
    let k = last_newline(r.buffer);
    lemma_last_newline(r.buffer);
    lemma_last_newline_of_both(head, r.buffer);
    if k >= 0 {
        let all = head + r.buffer;
        assert(all.skip(head.len() + k + 1) =~= r.buffer.skip(k + 1));
        assert(all.take(head.len() + k) =~= head + r.buffer.take(k));
    } else {
        assert(head =~= Seq::<u8>::empty());
        assert(head + r.buffer =~= r.buffer);
        assert(head + next.buffer =~= Seq::<u8>::empty());
        assert(remaining(next, content) =~= Seq::<Seq<u8>>::empty());
        assert(remaining(r, content) =~= seq![r.buffer]);
    }
}

/// A reader that is given the bytes that it asks for has the same lines to hand out as before.
pub proof fn law_reading_keeps_lines(r: Reading, content: Seq<u8>)
    requires
        reads(r, content),
        advanced(r).1 is Read,
    ensures
        ({
            let position = advanced(r).1->Read_position as int;
            let length = advanced(r).1->Read_length as int;
            let next = supplied(r, content.subrange(position, position + length));
            reads(next, content) && remaining(next, content) == remaining(r, content)
        }),
{
    let position = advanced(r).1->Read_position as int;
    let length = advanced(r).1->Read_length as int;
    let chunk = content.subrange(position, position + length);
    let next = supplied(r, chunk);
    let head = content.take(position);
    assert(content.take(r.position as int) + r.buffer =~= head + (chunk + r.buffer));
    if r.fresh {
        assert((head + (chunk + r.buffer)).last() == (chunk + r.buffer).last());
        assert((head + (chunk + r.buffer)).drop_last() =~= head + (chunk + r.buffer).drop_last());
    }
}

/// A reader that is done has no line left to hand out.
pub proof fn law_finished_means_no_line(r: Reading, content: Seq<u8>)
    requires
        reads(r, content),
        advanced(r).1 is Finished,
    ensures
        remaining(r, content) =~= Seq::<Seq<u8>>::empty(),
{
    let bytes = content.take(r.position as int) + r.buffer;
    if r.left > 0 {
        assert(bytes =~= Seq::<u8>::empty());
    }
}

proof fn lemma_delivered(r: Reading, content: Seq<u8>)
    requires
        reads(r, content),
    ensures
        delivered(r, content) == remaining(r, content),
    decreases r.position, r.left,
{
    let (next, progress) = advanced(r);
    match progress {
        Progress::Line(line) => {
            law_line_is_next(r, content);
            lemma_delivered(next, content);
        },
        Progress::Read { position, length } => {
            law_reading_keeps_lines(r, content);
            lemma_delivered(
                supplied(next, content.subrange(position as int, (position + length) as int)),
                content,
            );
        },
        Progress::Finished => {
            law_finished_means_no_line(r, content);
        },
    }
}

/// Whatever the chunks in which it is read, a reader hands out the last lines of the file,
/// newest first.
pub proof fn law_delivers_the_last_lines(content: Seq<u8>, limit: nat)
    ensures
        delivered(unread(content.len(), limit), content) == file_lines(content, limit),
{
    let r = unread(content.len(), limit);
    lemma_delivered(r, content);
    assert(content.take(content.len() as int) + r.buffer =~= content);
}

/// A lower limit keeps the newest lines.
pub proof fn law_limit_keeps_the_newest(s: Seq<u8>, n: nat, m: nat)
    requires
        n <= m,
    ensures
        newest_lines(s, n).len() <= n,
        newest_lines(s, n) == newest_lines(s, m).take(
            if newest_lines(s, m).len() < n {
                newest_lines(s, m).len() as int
            } else {
                n as int
            },
        ),
    decreases n,
{
    if n > 0 {
        let k = last_newline(s);
        lemma_last_newline(s);
        if k >= 0 {
            law_limit_keeps_the_newest(s.take(k), (n - 1) as nat, (m - 1) as nat);
        }
        assert(newest_lines(s, n) =~= newest_lines(s, m).take(
            if newest_lines(s, m).len() < n {
                newest_lines(s, m).len() as int
            } else {
                n as int
            },
        ));
    } else {
        assert(newest_lines(s, n) =~= newest_lines(s, m).take(0));
    }
}

/// No line holds a newline.
pub proof fn law_lines_hold_no_newline(s: Seq<u8>, n: nat, i: int)
    requires
        0 <= i < newest_lines(s, n).len(),
    ensures
        !newest_lines(s, n)[i].contains(NEWLINE),
    decreases n,
{
    let k = last_newline(s);
    lemma_last_newline(s);
    if k >= 0 {
        if i > 0 {
            law_lines_hold_no_newline(s.take(k), (n - 1) as nat, i - 1);
        } else {
            let line = s.skip(k + 1);
            assert forall|j: int| 0 <= j < line.len() implies #[trigger] line[j] != NEWLINE by {
                assert(line[j] == s[k + 1 + j]);
            }
        }
    }
}

/// The lines of a text, oldest first and with newlines between them, are the text, where no
/// limit cuts them off and the text does not begin with an empty line.
pub proof fn law_lines_make_up_the_text(s: Seq<u8>, n: nat)
    requires
        n > s.len(),
        s.len() > 0 ==> s[0] != NEWLINE,
    ensures
        text::join(newest_lines(s, n).reverse(), NEWLINE) == s,
    decreases n,
{
    let k = last_newline(s);
    lemma_last_newline(s);
    let lines = newest_lines(s, n);
    if k > 0 {
        let head = s.take(k);
        assert(head[0] == s[0]);
        law_lines_make_up_the_text(head, (n - 1) as nat);
        let older = newest_lines(head, (n - 1) as nat);
        assert(last_newline(head) >= 0 || head.len() > 0);
        assert(older.len() > 0);
        assert(lines.reverse().drop_last() =~= older.reverse());
        assert(lines.reverse().last() == s.skip(k + 1));
        assert(head.push(NEWLINE) + s.skip(k + 1) =~= s);
    } else if k == 0 {
        assert(s[0] == NEWLINE);
    } else if s.len() > 0 {
        assert(lines.reverse() =~= seq![s]);
    } else {
        assert(lines.reverse() =~= Seq::<Seq<u8>>::empty());
        assert(s =~= Seq::<u8>::empty());
    }
}

proof fn lemma_lines_of_joined(lines: Seq<Seq<u8>>, n: nat)
    requires
        0 < lines.len() <= n,
        forall|i: int| 0 <= i < lines.len() ==> !(#[trigger] lines[i]).contains(10u8),
    ensures
        newest_lines(text::join(lines, 10u8), n) == (if lines[0].len() > 0 {
            lines.reverse()
        } else {
            lines.skip(1).reverse()
        }),
    decreases lines.len(),
{
    let s = text::join(lines, 10u8);
    let last = lines.last();
    assert(!lines[lines.len() - 1].contains(10u8));
    lemma_last_newline(last);
    if last_newline(last) >= 0 {
        assert(last.contains(last[last_newline(last)]));
    }
    if lines.len() == 1 {
        assert(lines.reverse() =~= seq![s]);
        assert(lines.skip(1).reverse() =~= Seq::<Seq<u8>>::empty());
    } else {
        let first = lines.drop_last();
        let head = text::join(first, 10u8);
        lemma_lines_of_joined(first, (n - 1) as nat);
        lemma_last_newline_of_both(head.push(10u8), last);
        assert(head.push(10u8).last() == 10u8);
        assert(s == head.push(10u8) + last);
        assert(s.take(head.len() as int) =~= head);
        assert(s.skip(head.len() as int + 1) =~= last);
        assert(first[0] == lines[0]);
        assert(lines.reverse() =~= seq![last] + first.reverse());
        assert(lines.skip(1).reverse() =~= seq![last] + first.skip(1).reverse());
    }
}

/// Lines that are written one behind the other are read back, newest first, whether the last one
/// is ended or not. Only an empty line at the beginning of a file is none.
pub proof fn law_lines_are_read_back(lines: Seq<Seq<u8>>, limit: nat)
    requires
        0 < lines.len() <= limit,
        forall|i: int| 0 <= i < lines.len() ==> !(#[trigger] lines[i]).contains(10u8),
    ensures
        ({
            let kept = if lines[0].len() > 0 {
                lines.reverse()
            } else {
                lines.skip(1).reverse()
            };
            &&& file_lines(text::join(lines, 10u8).push(10u8), limit) == kept
            &&& lines[lines.len() - 1].len() > 0 ==> file_lines(text::join(lines, 10u8), limit)
                == kept
        }),
{
    let s = text::join(lines, 10u8);
    lemma_lines_of_joined(lines, limit);
    assert(s.push(10u8).drop_last() =~= s);
    let last = lines.last();
    if last.len() > 0 {
        assert(!lines[lines.len() - 1].contains(10u8));
        assert(last.contains(last[last.len() - 1]));
        assert(s.last() == last.last()) by {
            if lines.len() > 1 {
                let head = text::join(lines.drop_last(), 10u8).push(10u8);
                assert(s == head + last);
            }
        }
    }
}

/// The text of a line is what its bytes encode; one carriage return at its end is no part of it.
pub proof fn law_one_return_is_left_out(s: Seq<char>)
    ensures
        line_text(vstd::utf8::encode_utf8(s).push(13u8)) == s,
        ({
            let bytes = vstd::utf8::encode_utf8(s);
            bytes.len() == 0 || bytes[bytes.len() - 1] != 13u8 ==> line_text(bytes) == s
        }),
{
    let bytes = vstd::utf8::encode_utf8(s);
    assert(bytes.push(13u8).drop_last() =~= bytes);
    utf8::law_text_is_shown_as_itself(s);
}

/// A line with fewer than two tabs is none of the log.
pub proof fn law_lines_have_two_tabs(a: Seq<char>, b: Seq<char>)
    requires
        !a.contains('\t'),
        !b.contains('\t'),
    ensures
        log_fields(a) is None,
        log_fields(a.push('\t') + b) is None,
{
    text::law_no_sides(a, '\t');
    text::law_no_sides(b, '\t');
    text::law_sides_are_read_back(a, '\t', b);
}

} // verus!
