//! How a message travels over a byte stream: a header that announces its length, then its text.

use crate::json::{
    carries, decode_message, decoded, has_normal_values, is_portable, nesting, normalized,
    reads_back, rpc_encoded, same_envelope, same_values, to_rpc,
};
use crate::message::{IdView, Message, MessageView, NotificationView, ResponseView};
use vstd::prelude::*;
use vstd::slice::slice_subrange;
use vstd::utf8::valid_utf8;

verus! {

/// What the bytes at the front of a stream amount to.
#[derive(Debug, PartialEq, Eq)]
pub enum Read {
    /// Nothing yet: more bytes are needed.
    Incomplete,
    /// The stream has ended where a message might have begun.
    End,
    /// A message, and how many bytes it took up.
    Message(Message, usize),
}

/// Where the text of a message stands at the front of a stream.
#[derive(Debug, Clone, Copy, PartialEq, Eq, Structural)]
pub enum Frame {
    /// Not known yet: more bytes are needed.
    Incomplete,
    /// The stream has ended where a message might have begun.
    End,
    /// From the first of these places up to the second.
    Text(usize, usize),
}

/// Why the bytes at the front of a stream are no message.
#[derive(Debug, Clone, Copy, PartialEq, Eq, Structural)]
pub enum ReadError {
    /// A header line is not UTF-8.
    HeaderNotUtf8,
    /// A header line is not ended by a carriage return and a line feed, or has no `: ` in it.
    MalformedHeader,
    /// The announced length is not a number, or not one that a length can be.
    InvalidContentLength,
    /// The header announces no length.
    NoContentLength,
    /// The stream has ended before the announced length was reached.
    UnexpectedEnd,
    /// The text is not UTF-8.
    BodyNotUtf8,
    /// The text is no message.
    InvalidMessage,
}

/// What a [`Frame`] is.
pub enum FrameView {
    Incomplete,
    End,
    Text(int, int),
}

impl View for Frame {
    type V = FrameView;

    open spec fn view(&self) -> FrameView {
        match self {
            Frame::Incomplete => FrameView::Incomplete,
            Frame::End => FrameView::End,
            Frame::Text(from, to) => FrameView::Text(*from as int, *to as int),
        }
    }
}

/// What a [`Read`] is.
pub enum ReadView {
    Incomplete,
    End,
    Message(MessageView, int),
}

impl View for Read {
    type V = ReadView;

    open spec fn view(&self) -> ReadView {
        match self {
            Read::Incomplete => ReadView::Incomplete,
            Read::End => ReadView::End,
            Read::Message(m, used) => ReadView::Message(m@, *used as int),
        }
    }
}

/// The bytes of an ASCII text.
pub open spec fn ascii(text: Seq<char>) -> Seq<u8> {
    Seq::new(text.len(), |i: int| text[i] as u8)
}

/// A number in decimal digits.
pub open spec fn decimal(n: nat) -> Seq<u8>
    decreases n,
{
    if n < 10 {
        seq![(48 + n) as u8]
    } else {
        decimal(n / 10).push((48 + n % 10) as u8)
    }
}

/// The number that a sequence of decimal digits stands for.
pub open spec fn decimal_value(digits: Seq<u8>) -> nat
    decreases digits.len(),
{
    if digits.len() == 0 {
        0
    } else {
        (10 * decimal_value(digits.drop_last()) + (digits.last() - 48)) as nat
    }
}

/// The end of a header line.
pub open spec fn line_end() -> Seq<u8> {
    seq![13u8, 10u8]
}

/// The header that announces a text of `n` bytes.
pub open spec fn header(n: nat) -> Seq<u8> {
    ascii("Content-Length: "@) + decimal(n) + line_end() + line_end()
}

/// A text behind the header that announces its length.
pub open spec fn framed(body: Seq<u8>) -> Seq<u8> {
    header(body.len()) + body
}

/// Where the first line feed at or behind `from` stands, the length where there is none.
pub open spec fn line_feed(bytes: Seq<u8>, from: int) -> int
    decreases bytes.len() - from,
{
    if from >= bytes.len() {
        bytes.len() as int
    } else if bytes[from] == 10 {
        from
    } else {
        line_feed(bytes, from + 1)
    }
}

/// Where the first `: ` at or behind `from` stands, the length where there is none.
pub open spec fn separator(line: Seq<u8>, from: int) -> int
    decreases line.len() - from,
{
    if from + 1 >= line.len() {
        line.len() as int
    } else if line[from] == 58 && line[from + 1] == 32 {
        from
    } else {
        separator(line, from + 1)
    }
}

/// A byte with an upper case ASCII letter made lower case.
pub open spec fn lower(b: u8) -> u8 {
    if 65 <= b <= 90 {
        (b + 32) as u8
    } else {
        b
    }
}

/// The name of the header that announces the length, in any mix of upper and lower case.
pub open spec fn names_length(name: Seq<u8>) -> bool {
    let wanted = ascii("Content-Length"@);
    name.len() == wanted.len() && forall|i: int|
        0 <= i < name.len() ==> lower(#[trigger] name[i]) == lower(wanted[i])
}

/// Decimal digits and nothing else.
pub open spec fn all_digits(text: Seq<u8>) -> bool {
    forall|i: int| 0 <= i < text.len() ==> 48 <= #[trigger] text[i] <= 57
}

/// The digits of a number that may have a plus sign in front.
pub open spec fn unsigned(text: Seq<u8>) -> Seq<u8> {
    if text.len() > 0 && text[0] == 43 {
        text.skip(1)
    } else {
        text
    }
}

/// The length that a text announces, `None` where it is not one.
pub open spec fn length_of(text: Seq<u8>) -> Option<usize> {
    let digits = unsigned(text);
    if digits.len() > 0 && all_digits(digits) && decimal_value(digits) <= usize::MAX {
        Some(decimal_value(digits) as usize)
    } else {
        None
    }
}

/// What the bytes are, where the text of the message begins at `from` and is `size` bytes long.
pub open spec fn read_body(bytes: Seq<u8>, ended: bool, from: int, size: usize) -> Result<
    FrameView,
    ReadError,
> {
    if bytes.len() - from < size {
        if ended {
            Err(ReadError::UnexpectedEnd)
        } else {
            Ok(FrameView::Incomplete)
        }
    } else {
        if valid_utf8(bytes.subrange(from, from + size)) {
            Ok(FrameView::Text(from, from + size))
        } else {
            Err(ReadError::BodyNotUtf8)
        }
    }
}

/// What the bytes are, where a header line begins at `from` and the lines before it have
/// announced the length `size`. The last announcement counts.
pub open spec fn read_header(bytes: Seq<u8>, ended: bool, from: int, size: Option<usize>) -> Result<
    FrameView,
    ReadError,
>
    decreases bytes.len() - from,
{
    let end = line_feed(bytes, from);
    if from < 0 || (end >= bytes.len() && !ended) {
        Ok(FrameView::Incomplete)
    } else if from >= bytes.len() {
        Ok(FrameView::End)
    } else if end >= bytes.len() {
        if valid_utf8(bytes.skip(from)) {
            Err(ReadError::MalformedHeader)
        } else {
            Err(ReadError::HeaderNotUtf8)
        }
    } else if !valid_utf8(bytes.subrange(from, end + 1)) {
        Err(ReadError::HeaderNotUtf8)
    } else if end <= from || bytes[end - 1] != 13 {
        Err(ReadError::MalformedHeader)
    } else if end - 1 == from {
        match size {
            None => Err(ReadError::NoContentLength),
            Some(n) => read_body(bytes, ended, end + 1, n),
        }
    } else {
        let line = bytes.subrange(from, end - 1);
        let at = separator(line, 0);
        if at >= line.len() {
            Err(ReadError::MalformedHeader)
        } else if !names_length(line.take(at)) {
            read_header(bytes, ended, end + 1, size)
        } else {
            match length_of(line.skip(at + 2)) {
                None => Err(ReadError::InvalidContentLength),
                Some(n) => read_header(bytes, ended, end + 1, Some(n)),
            }
        }
    }
}

/// Where the text of a message stands at the front of a stream; `ended` tells that no more bytes
/// will follow.
pub open spec fn frame_result(bytes: Seq<u8>, ended: bool) -> Result<FrameView, ReadError> {
    read_header(bytes, ended, 0, None)
}

/// What the bytes at the front of a stream are; `ended` tells that no more will follow.
pub open spec fn read_result(bytes: Seq<u8>, ended: bool) -> Result<ReadView, ReadError> {
    match frame_result(bytes, ended) {
        Ok(FrameView::Incomplete) => Ok(ReadView::Incomplete),
        Ok(FrameView::End) => Ok(ReadView::End),
        Ok(FrameView::Text(from, to)) => match decoded(bytes.subrange(from, to)) {
            Some(m) => Ok(ReadView::Message(m, to)),
            None => Err(ReadError::InvalidMessage),
        },
        Err(e) => Err(e),
    }
}

/// Calls `std::str::from_utf8`. Claims that it succeeds on UTF-8 and on nothing else.
#[verifier::external_body]
fn is_utf8(bytes: &[u8]) -> (r: bool)
    ensures
        r == valid_utf8(bytes@),
{
    std::str::from_utf8(bytes).is_ok()
}

fn find_line_feed(bytes: &[u8], from: usize) -> (r: usize)
    requires
        from <= bytes@.len(),
    ensures
        r == line_feed(bytes@, from as int),
        from <= r <= bytes@.len(),
{
    let mut i: usize = from;
    while i < bytes.len() && bytes[i] != 10
        invariant
            from <= i <= bytes@.len(),
            line_feed(bytes@, i as int) == line_feed(bytes@, from as int),
        decreases bytes@.len() - i,
    {
        i += 1;
    }
    i
}

fn find_separator(line: &[u8]) -> (r: usize)
    ensures
        r == separator(line@, 0),
        r < line@.len() ==> r + 1 < line@.len(),
{
    let mut i: usize = 0;
    while line.len() - i > 1
        invariant
            i <= line@.len(),
            separator(line@, i as int) == separator(line@, 0),
        decreases line@.len() - i,
    {
        if line[i] == 58 && line[i + 1] == 32 {
            return i;
        }
        i += 1;
    }
    line.len()
}

fn lower_case(b: u8) -> (r: u8)
    ensures
        r == lower(b),
{
    if b >= 65 && b <= 90 {
        b + 32
    } else {
        b
    }
}

fn is_length_name(name: &[u8]) -> (r: bool)
    ensures
        r == names_length(name@),
{
    let wanted: &[u8] = "Content-Length".as_bytes();
    proof {
        reveal_strlit("Content-Length");
        vstd::utf8::is_ascii_chars_encode_utf8("Content-Length"@);
        assert(wanted@ =~= ascii("Content-Length"@));
    }
    if name.len() != wanted.len() {
        return false;
    }
    let mut i: usize = 0;
    while i < name.len()
        invariant
            i <= name@.len() == wanted@.len(),
            wanted@ == ascii("Content-Length"@),
            forall|j: int| 0 <= j < i ==> lower(#[trigger] name@[j]) == lower(wanted@[j]),
        decreases name@.len() - i,
    {
        if lower_case(name[i]) != lower_case(wanted[i]) {
            assert(lower(name@[i as int]) != lower(wanted@[i as int]));
            return false;
        }
        i += 1;
    }
    true
}

proof fn lemma_value_grows(digits: Seq<u8>, n: int)
    requires
        0 <= n <= digits.len(),
        all_digits(digits),
    ensures
        decimal_value(digits.take(n)) <= decimal_value(digits),
    decreases digits.len() - n,
{
    if n < digits.len() {
        lemma_value_grows(digits, n + 1);
        assert(digits.take(n + 1).drop_last() =~= digits.take(n));
        assert(digits.take(n + 1).last() == digits[n]);
    } else {
        assert(digits.take(n) =~= digits);
    }
}

fn parse_length(text: &[u8]) -> (r: Option<usize>)
    ensures
        r == length_of(text@),
{
    let digits: &[u8] = if text.len() > 0 && text[0] == 43 {
        proof {
            assert(text@.subrange(1, text@.len() as int) =~= text@.skip(1));
        }
        slice_subrange(text, 1, text.len())
    } else {
        text
    };
    if digits.len() == 0 {
        return None;
    }
    let mut i: usize = 0;
    while i < digits.len()
        invariant
            i <= digits@.len(),
            digits@ == unsigned(text@),
            forall|j: int| 0 <= j < i ==> 48 <= #[trigger] digits@[j] <= 57,
        decreases digits@.len() - i,
    {
        if digits[i] < 48 || digits[i] > 57 {
            assert(!(48 <= digits@[i as int] <= 57));
            return None;
        }
        i += 1;
    }
    let mut value: usize = 0;
    let mut k: usize = 0;
    while k < digits.len()
        invariant
            k <= digits@.len(),
            digits@ == unsigned(text@),
            digits@.len() > 0,
            all_digits(digits@),
            value == decimal_value(digits@.take(k as int)),
        decreases digits@.len() - k,
    {
        let digit: u8 = digits[k] - 48;
        proof {
            assert(digits@.take(k + 1).drop_last() =~= digits@.take(k as int));
            lemma_value_grows(digits@, k + 1);
            assert(decimal_value(digits@.take(k + 1)) == 10 * value + digit);
        }
        match value.checked_mul(10) {
            None => {
                return None;
            },
            Some(tens) => {
                match tens.checked_add(digit as usize) {
                    None => {
                        return None;
                    },
                    Some(v) => {
                        value = v;
                    },
                }
            },
        }
        k += 1;
    }
    proof {
        assert(digits@.take(k as int) =~= digits@);
    }
    Some(value)
}

/// Finds the text of the message at the front of a stream, as far as its bytes are known. `ended`
/// tells that no more bytes will follow.
pub fn read_frame(bytes: &[u8], ended: bool) -> (r: Result<Frame, ReadError>)
    ensures
        match r {
            Ok(frame) => frame_result(bytes@, ended) == Ok::<FrameView, ReadError>(frame@),
            Err(e) => frame_result(bytes@, ended) == Err::<FrameView, ReadError>(e),
        },
        r matches Ok(Frame::Text(from, to)) ==> from <= to <= bytes@.len(),
{
    let mut from: usize = 0;
    let mut size: Option<usize> = None;
    loop
        invariant
            from <= bytes@.len(),
            read_header(bytes@, ended, from as int, size) == frame_result(bytes@, ended),
        decreases bytes@.len() - from,
    {
        let end: usize = find_line_feed(bytes, from);
        if end >= bytes.len() {
            if !ended {
                return Ok(Frame::Incomplete);
            }
            if from >= bytes.len() {
                return Ok(Frame::End);
            }
            proof {
                assert(bytes@.subrange(from as int, bytes@.len() as int) =~= bytes@.skip(
                    from as int,
                ));
            }
            if is_utf8(slice_subrange(bytes, from, bytes.len())) {
                return Err(ReadError::MalformedHeader);
            }
            return Err(ReadError::HeaderNotUtf8);
        }
        if !is_utf8(slice_subrange(bytes, from, end + 1)) {
            return Err(ReadError::HeaderNotUtf8);
        }
        if end <= from || bytes[end - 1] != 13 {
            return Err(ReadError::MalformedHeader);
        }
        if end - 1 == from {
            match size {
                None => {
                    return Err(ReadError::NoContentLength);
                },
                Some(n) => {
                    return read_text(bytes, ended, end + 1, n);
                },
            }
        }
        let line: &[u8] = slice_subrange(bytes, from, end - 1);
        let at: usize = find_separator(line);
        if at >= line.len() {
            return Err(ReadError::MalformedHeader);
        }
        proof {
            assert(line@.subrange(0, at as int) =~= line@.take(at as int));
            assert(line@.subrange(at + 2, line@.len() as int) =~= line@.skip(at + 2));
        }
        if is_length_name(slice_subrange(line, 0, at)) {
            match parse_length(slice_subrange(line, at + 2, line.len())) {
                None => {
                    return Err(ReadError::InvalidContentLength);
                },
                Some(n) => {
                    size = Some(n);
                },
            }
        }
        from = end + 1;
    }
}

fn read_text(bytes: &[u8], ended: bool, from: usize, size: usize) -> (r: Result<Frame, ReadError>)
    requires
        from <= bytes@.len(),
    ensures
        match r {
            Ok(frame) => read_body(bytes@, ended, from as int, size) == Ok::<FrameView, ReadError>(
                frame@,
            ),
            Err(e) => read_body(bytes@, ended, from as int, size) == Err::<FrameView, ReadError>(e),
        },
        r matches Ok(Frame::Text(start, end)) ==> start <= end <= bytes@.len(),
{
    if bytes.len() - from < size {
        return if ended {
            Err(ReadError::UnexpectedEnd)
        } else {
            Ok(Frame::Incomplete)
        };
    }
    if is_utf8(slice_subrange(bytes, from, from + size)) {
        Ok(Frame::Text(from, from + size))
    } else {
        Err(ReadError::BodyNotUtf8)
    }
}

/// Reads the message at the front of a stream, as far as its bytes are known. `ended` tells that
/// no more bytes will follow.
pub fn read_lsp_message(bytes: &[u8], ended: bool) -> (r: Result<Read, ReadError>)
    ensures
        match r {
            Ok(read) => read_result(bytes@, ended) == Ok::<ReadView, ReadError>(read@),
            Err(e) => read_result(bytes@, ended) == Err::<ReadView, ReadError>(e),
        },
{
    match read_frame(bytes, ended) {
        Ok(Frame::Incomplete) => Ok(Read::Incomplete),
        Ok(Frame::End) => Ok(Read::End),
        Ok(Frame::Text(from, to)) => match decode_message(slice_subrange(bytes, from, to)) {
            Some(m) => Ok(Read::Message(m, to)),
            None => Err(ReadError::InvalidMessage),
        },
        Err(e) => Err(e),
    }
}

/// Encodes a message for a byte stream, with the header that announces its length.
pub fn encode_lsp_message(message: Message) -> (bytes: Vec<u8>)
    ensures
        bytes@ == framed(rpc_encoded(message@)),
        carries(bytes@, message@),
{
    let mut bytes: Vec<u8> = Vec::new();
    to_rpc(message, &mut bytes);
    bytes
}

/// The text that was put into a frame is found in it again, whatever follows.
pub proof fn law_the_text_of_a_frame_is_found(body: Seq<u8>, rest: Seq<u8>, ended: bool)
    requires
        body.len() <= usize::MAX,
        valid_utf8(body),
    ensures
        frame_result(framed(body) + rest, ended) == Ok::<FrameView, ReadError>(
            FrameView::Text(framed(body).len() - body.len(), framed(body).len() as int),
        ),
        (framed(body) + rest).subrange(
            framed(body).len() - body.len(),
            framed(body).len() as int,
        ) == body,
{
    let n = body.len();
    let bytes = framed(body) + rest;
    let at = header(n).len() - 4;
    lemma_first_line(bytes, n, ended, None);
    assert(bytes[at + 2] == 13 && bytes[at + 3] == 10);
    lemma_empty_line(bytes, n, ended);
    assert(bytes.subrange(at + 4, at + 4 + n) =~= body);
}

/// What is read from an encoded message, whatever follows it, is a message of the same kind, with
/// the same id and the same method, that takes up just the encoded bytes, unless it is refused as
/// no message at all. If the values that the message carries were once read from some text, it is
/// the very message. If the message is portable, it is the message with its values as `serde_json`
/// prints them.
pub proof fn law_an_encoded_message_is_read_back(
    frame: Seq<u8>,
    message: MessageView,
    rest: Seq<u8>,
    ended: bool,
)
    requires
        carries(frame, message),
        frame.len() <= usize::MAX,
    ensures
        match read_result(frame + rest, ended) {
            Ok(ReadView::Message(m, used)) => same_envelope(m, message) && used == frame.len(),
            Ok(_) => false,
            Err(e) => e == ReadError::InvalidMessage,
        },
        (exists|source: Seq<u8>|
            (#[trigger] decoded(source) matches Some(m) && same_values(m, message))) ==> read_result(
            frame + rest,
            ended,
        ) == Ok::<ReadView, ReadError>(ReadView::Message(message, frame.len() as int)),
        is_portable(message) ==> read_result(frame + rest, ended) == Ok::<ReadView, ReadError>(
            ReadView::Message(normalized(message), frame.len() as int),
        ),
{
    let body = rpc_encoded(message);
    assert(frame == framed(body) && valid_utf8(body) && reads_back(body, message));
    law_the_text_of_a_frame_is_found(body, rest, ended);
}

/// The frames of some messages, one behind the other.
pub open spec fn stream_of(frames: Seq<Seq<u8>>) -> Seq<u8>
    decreases frames.len(),
{
    if frames.len() == 0 {
        Seq::empty()
    } else {
        frames[0] + stream_of(frames.skip(1))
    }
}

/// What reading a stream that has ended gives, message by message, and how it ends.
pub open spec fn read_stream(bytes: Seq<u8>) -> (Seq<MessageView>, Result<(), ReadError>)
    decreases bytes.len(),
{
    match read_result(bytes, true) {
        Ok(ReadView::Message(m, used)) => if 0 < used <= bytes.len() {
            let (rest, end) = read_stream(bytes.skip(used));
            (seq![m] + rest, end)
        } else {
            (seq![m], Ok(()))
        },
        Ok(_) => (Seq::empty(), Ok(())),
        Err(e) => (Seq::empty(), Err(e)),
    }
}

/// Messages that are encoded one behind the other are read one after the other, each with its
/// values as `serde_json` prints them and a result that is `null` left out, and then the stream has
/// ended.
pub proof fn law_encoded_messages_are_read_in_turn(
    frames: Seq<Seq<u8>>,
    messages: Seq<MessageView>,
)
    requires
        frames.len() == messages.len(),
        forall|i: int|
            0 <= i < frames.len() ==> carries(#[trigger] frames[i], messages[i])
                && frames[i].len() <= usize::MAX && is_portable(messages[i]),
    ensures
        read_stream(stream_of(frames)) == (
            Seq::new(messages.len(), |i: int| normalized(messages[i])),
            Ok::<(), ReadError>(()),
        ),
    decreases frames.len(),
{
    let bytes = stream_of(frames);
    let read = Seq::new(messages.len(), |i: int| normalized(messages[i]));
    if frames.len() == 0 {
        assert(read_stream(bytes).0 =~= read);
    } else {
        let rest = stream_of(frames.skip(1));
        let n = frames[0].len() as int;
        assert(carries(frames[0], messages[0]));
        law_an_encoded_message_is_read_back(frames[0], messages[0], rest, true);
        assert(n > 0) by {
            let body = rpc_encoded(messages[0]);
            assert(frames[0] == framed(body));
            lemma_announcement(body.len());
        }
        assert(bytes.skip(n) =~= rest);
        assert forall|i: int| 0 <= i < frames.skip(1).len() implies carries(
            #[trigger] frames.skip(1)[i],
            messages.skip(1)[i],
        ) && frames.skip(1)[i].len() <= usize::MAX && is_portable(messages.skip(1)[i]) by {
            assert(frames.skip(1)[i] == frames[i + 1]);
        }
        law_encoded_messages_are_read_in_turn(frames.skip(1), messages.skip(1));
        assert(read_stream(bytes).0 =~= read);
    }
}

/// A message whose values are as `serde_json` prints them is read back as it is.
pub proof fn law_normal_messages_stay_as_they_are(message: MessageView)
    requires
        has_normal_values(message),
    ensures
        normalized(message) == message,
{
}

/// What a daemon says of itself is read back: a notification without parameters as it is, and a
/// response without a result with its result left out.
pub proof fn law_null_is_portable(id: IdView, method: Seq<char>)
    ensures
        ({
            let said = MessageView::Notification(NotificationView { method, params: "null"@ });
            is_portable(said) && normalized(said) == said
        }),
        ({
            let answer = ResponseView { id, result: Some("null"@), error: None };
            is_portable(MessageView::Response(answer)) && normalized(MessageView::Response(answer))
                == MessageView::Response(ResponseView { result: None, ..answer })
        }),
{
    reveal_strlit("null");
    assert(nesting("null"@).deepest == 0) by {
        reveal_with_fuel(nesting, 5);
    }
}

/// What is found behind the first `n` bytes of a stream, as it stands in the whole stream.
pub open spec fn moved(found: Result<FrameView, ReadError>, n: int) -> Result<FrameView, ReadError> {
    match found {
        Ok(FrameView::Text(from, to)) => Ok(FrameView::Text(from + n, to + n)),
        other => other,
    }
}

/// Where the first line feed stands does not depend on what comes before.
proof fn lemma_line_feed_moved(front: Seq<u8>, rest: Seq<u8>, from: int)
    requires
        0 <= from,
    ensures
        line_feed(front + rest, front.len() + from) == front.len() + line_feed(rest, from) || (
        from > rest.len() && line_feed(front + rest, front.len() + from) == front.len()
            + rest.len()),
    decreases rest.len() - from,
{
    if from < rest.len() && rest[from] != 10 {
        lemma_line_feed_moved(front, rest, from + 1);
        assert((front + rest)[front.len() + from] == rest[from]);
    } else if from < rest.len() {
        assert((front + rest)[front.len() + from] == rest[from]);
    }
}

/// The first line feed stands where there is one, and there is none before it.
proof fn lemma_line_feed_within(bytes: Seq<u8>, from: int)
    requires
        0 <= from <= bytes.len(),
    ensures
        from <= line_feed(bytes, from) <= bytes.len(),
        line_feed(bytes, from) < bytes.len() ==> bytes[line_feed(bytes, from)] == 10,
    decreases bytes.len() - from,
{
    if from < bytes.len() && bytes[from] != 10 {
        lemma_line_feed_within(bytes, from + 1);
    }
}

/// What a header says from some line on does not depend on what comes before.
proof fn lemma_header_moved(
    front: Seq<u8>,
    rest: Seq<u8>,
    ended: bool,
    from: int,
    size: Option<usize>,
)
    requires
        0 <= from <= rest.len(),
    ensures
        read_header(front + rest, ended, front.len() + from, size) == moved(
            read_header(rest, ended, from, size),
            front.len() as int,
        ),
    decreases rest.len() - from,
{
    let bytes = front + rest;
    let n = front.len() as int;
    let end = line_feed(rest, from);
    lemma_line_feed_moved(front, rest, from);
    lemma_line_feed_within(rest, from);
    assert(line_feed(bytes, n + from) == n + end);
    if end < rest.len() {
        assert(bytes.subrange(n + from, n + end + 1) =~= rest.subrange(from, end + 1));
        if end > from {
            assert(bytes[n + end - 1] == rest[end - 1]);
            assert(bytes.subrange(n + from, n + end - 1) =~= rest.subrange(from, end - 1));
            if rest[end - 1] == 13 && end - 1 > from {
                lemma_header_moved(front, rest, ended, end + 1, size);
                let line = rest.subrange(from, end - 1);
                let at = separator(line, 0);
                match length_of(line.skip(at + 2)) {
                    Some(k) => {
                        lemma_header_moved(front, rest, ended, end + 1, Some(k));
                    },
                    None => {},
                }
            } else if rest[end - 1] == 13 {
                match size {
                    Some(k) => {
                        if rest.len() - (end + 1) >= k {
                            assert(bytes.subrange(n + end + 1, n + end + 1 + k) =~= rest.subrange(
                                end + 1,
                                end + 1 + k,
                            ));
                        }
                    },
                    None => {},
                }
            }
        }
    } else if from < rest.len() {
        assert(bytes.skip(n + from) =~= rest.skip(from));
    }
}

/// A header line that names something else than the length: UTF-8 with a `: ` behind the name and
/// without a line feed.
pub open spec fn is_other_line(line: Seq<u8>, name: Seq<u8>, value: Seq<u8>) -> bool {
    &&& line == name + seq![58u8, 32u8] + value
    &&& valid_utf8(line + seq![13u8, 10u8])
    &&& forall|i: int| 0 <= i < line.len() ==> #[trigger] line[i] != 10
    &&& forall|i: int| 0 <= i < name.len() ==> #[trigger] name[i] != 58
    &&& !names_length(name)
}

/// The name of a header line reaches up to the first `: `.
proof fn lemma_name_ends(name: Seq<u8>, value: Seq<u8>, from: int)
    requires
        0 <= from <= name.len(),
        forall|i: int| 0 <= i < name.len() ==> #[trigger] name[i] != 58,
    ensures
        separator(name + seq![58u8, 32u8] + value, from) == name.len(),
    decreases name.len() - from,
{
    let line = name + seq![58u8, 32u8] + value;
    if from < name.len() {
        assert(line[from] == name[from]);
        lemma_name_ends(name, value, from + 1);
    } else {
        assert(line[from] == 58 && line[from + 1] == 32);
    }
}

/// The line feed that ends a line without line feeds is the first one.
proof fn lemma_line_ends(line: Seq<u8>, rest: Seq<u8>, from: int)
    requires
        0 <= from <= line.len() + 1,
        forall|i: int| 0 <= i < line.len() ==> #[trigger] line[i] != 10,
    ensures
        line_feed(line + seq![13u8, 10u8] + rest, from) == line.len() + 1,
    decreases line.len() + 1 - from,
{
    let bytes = line + seq![13u8, 10u8] + rest;
    if from < line.len() {
        assert(bytes[from] == line[from]);
        lemma_line_ends(line, rest, from + 1);
    } else if from == line.len() {
        assert(bytes[from] == 13);
        lemma_line_ends(line, rest, from + 1);
    } else {
        assert(bytes[from] == 10);
    }
}

/// A header line that does not name the length does not matter: what comes behind it is found as if
/// it was not there.
pub proof fn law_other_header_lines_do_not_matter(
    line: Seq<u8>,
    name: Seq<u8>,
    value: Seq<u8>,
    rest: Seq<u8>,
    ended: bool,
)
    requires
        is_other_line(line, name, value),
    ensures
        frame_result(line + seq![13u8, 10u8] + rest, ended) == moved(
            frame_result(rest, ended),
            line.len() as int + 2,
        ),
{
    let front = line + seq![13u8, 10u8];
    let bytes = front + rest;
    let end = line.len() as int + 1;
    lemma_line_ends(line, rest, 0);
    lemma_name_ends(name, value, 0);
    assert(bytes.subrange(0, end + 1) =~= front);
    assert(bytes.subrange(0, end - 1) =~= line);
    assert(bytes[end - 1] == 13);
    assert(line.take(name.len() as int) =~= name);
    lemma_header_moved(front, rest, ended, 0, None);
}

/// A stream that has ended has no message any more, and one that has not may still have one. A
/// header that ends without a length is refused, and so is a text that is not UTF-8.
pub proof fn law_what_is_no_frame(rest: Seq<u8>, ended: bool, body: Seq<u8>)
    ensures
        frame_result(Seq::<u8>::empty(), true) == Ok::<FrameView, ReadError>(FrameView::End),
        frame_result(Seq::<u8>::empty(), false) == Ok::<FrameView, ReadError>(
            FrameView::Incomplete,
        ),
        frame_result(seq![13u8, 10u8] + rest, ended) == Err::<FrameView, ReadError>(
            ReadError::NoContentLength,
        ),
        body.len() <= usize::MAX && !valid_utf8(body) ==> frame_result(framed(body) + rest, ended)
            == Err::<FrameView, ReadError>(ReadError::BodyNotUtf8),
{
    let nothing = Seq::<u8>::empty();
    lemma_line_ends(nothing, rest, 0);
    assert(nothing + seq![13u8, 10u8] + rest =~= seq![13u8, 10u8] + rest);
    assert((seq![13u8, 10u8] + rest).subrange(0, 2) =~= seq![13u8, 10u8]);
    lemma_ascii_is_utf8(seq![13u8, 10u8]);
    if body.len() <= usize::MAX {
        let n = body.len();
        let bytes = framed(body) + rest;
        let at = header(n).len() - 4;
        lemma_first_line(bytes, n, ended, None);
        assert(bytes[at + 2] == 13 && bytes[at + 3] == 10);
        lemma_empty_line(bytes, n, ended);
        assert(bytes.subrange(at + 4, at + 4 + n) =~= body);
    }
}

/// A stream that ends before the announced length is reached is refused.
pub proof fn law_text_that_is_cut_off(body: Seq<u8>, part: Seq<u8>)
    requires
        body.len() <= usize::MAX,
        part.len() < body.len(),
    ensures
        frame_result(header(body.len()) + part, true) == Err::<FrameView, ReadError>(
            ReadError::UnexpectedEnd,
        ),
        frame_result(header(body.len()) + part, false) == Ok::<FrameView, ReadError>(
            FrameView::Incomplete,
        ),
{
    let n = body.len();
    let bytes = header(n) + part;
    let at = header(n).len() - 4;
    lemma_first_line(bytes, n, true, None);
    lemma_first_line(bytes, n, false, None);
    assert(bytes[at + 2] == 13 && bytes[at + 3] == 10);
    lemma_empty_line(bytes, n, true);
    lemma_empty_line(bytes, n, false);
}

/// A frame announces its length in a line of its own and then holds its text.
pub proof fn law_frame_announces_its_length(body: Seq<u8>)
    ensures
        framed(body) == ascii("Content-Length: "@) + decimal(body.len()) + seq![
            13u8,
            10u8,
            13u8,
            10u8,
        ] + body,
        decimal_value(decimal(body.len())) == body.len(),
{
    assert(framed(body) =~= ascii("Content-Length: "@) + decimal(body.len()) + seq![
        13u8,
        10u8,
        13u8,
        10u8,
    ] + body);
    lemma_decimal(body.len());
}

/// A header line that announces the length `n`: the name in any mix of upper and lower case, and
/// decimal digits that stand for `n`.
pub open spec fn announces(line: Seq<u8>, name: Seq<u8>, digits: Seq<u8>, n: nat) -> bool {
    let wanted = ascii("Content-Length"@);
    &&& line == name + seq![58u8, 32u8] + digits
    &&& name.len() == wanted.len()
    &&& forall|i: int|
        0 <= i < name.len() ==> (#[trigger] name[i] == wanted[i] || (97 <= wanted[i] <= 122
            && name[i] == wanted[i] - 32) || (65 <= wanted[i] <= 90 && name[i] == wanted[i] + 32))
    &&& digits.len() > 0
    &&& forall|i: int| 0 <= i < digits.len() ==> 48 <= #[trigger] digits[i] <= 57
    &&& decimal_value(digits) == n
}

/// A line that announces a length does so wherever it stands in a header.
proof fn lemma_announced(
    line: Seq<u8>,
    name: Seq<u8>,
    digits: Seq<u8>,
    n: nat,
    rest: Seq<u8>,
    ended: bool,
)
    requires
        announces(line, name, digits, n),
        n <= usize::MAX,
    ensures
        frame_result(line + seq![13u8, 10u8] + rest, ended) == moved(
            read_header(rest, ended, 0, Some(n as usize)),
            line.len() as int + 2,
        ),
{
    let front = line + seq![13u8, 10u8];
    let bytes = front + rest;
    let end = line.len() as int + 1;
    let wanted = ascii("Content-Length"@);
    assert(wanted.len() == 14 && forall|i: int|
        0 <= i < 14 ==> 45 <= #[trigger] wanted[i] <= 122 && wanted[i] != 58 && (wanted[i] == 45
            || 65 <= wanted[i] <= 90 || 97 <= wanted[i] <= 122)) by {
        reveal_strlit("Content-Length");
    }
    assert forall|i: int| 0 <= i < name.len() implies #[trigger] name[i] != 58 && name[i] != 10
        && name[i] < 128 && lower(name[i]) == lower(wanted[i]) by {
        assert(45 <= wanted[i] <= 122);
    }
    assert forall|i: int| 0 <= i < line.len() implies #[trigger] line[i] != 10 && line[i] < 128 by {
        if i < name.len() {
            assert(line[i] == name[i]);
        } else if i >= name.len() + 2 {
            assert(line[i] == digits[i - name.len() - 2]);
        }
    }
    lemma_line_ends(line, rest, 0);
    lemma_name_ends(name, digits, 0);
    assert(bytes.subrange(0, end + 1) =~= front);
    lemma_ascii_is_utf8(front);
    assert(bytes.subrange(0, end - 1) =~= line);
    assert(bytes[end - 1] == 13);
    assert(line.take(name.len() as int) =~= name);
    assert(line.skip(name.len() as int + 2) =~= digits);
    assert(unsigned(digits) == digits);
    assert(length_of(digits) == Some(n as usize));
    lemma_header_moved(front, rest, ended, 0, Some(n as usize));
}

/// The length may be announced under its name in any mix of upper and lower case, and with zeros in
/// front: the text is found that is as long as that, whatever follows.
pub proof fn law_length_in_any_case(
    line: Seq<u8>,
    name: Seq<u8>,
    digits: Seq<u8>,
    body: Seq<u8>,
    rest: Seq<u8>,
    ended: bool,
)
    requires
        announces(line, name, digits, body.len()),
        body.len() <= usize::MAX,
        valid_utf8(body),
    ensures
        frame_result(line + seq![13u8, 10u8] + (seq![13u8, 10u8] + body + rest), ended) == Ok::<
            FrameView,
            ReadError,
        >(FrameView::Text(line.len() as int + 4, line.len() as int + 4 + body.len())),
{
    let behind = seq![13u8, 10u8] + body + rest;
    let nothing = Seq::<u8>::empty();
    lemma_announced(line, name, digits, body.len(), behind, ended);
    lemma_line_ends(nothing, body + rest, 0);
    assert(nothing + seq![13u8, 10u8] + (body + rest) =~= behind);
    assert(behind.subrange(0, 2) =~= seq![13u8, 10u8]);
    lemma_ascii_is_utf8(seq![13u8, 10u8]);
    assert(behind.subrange(2, 2 + body.len() as int) =~= body);
}

/// The last announcement counts: a length that is announced before another does not matter.
pub proof fn law_last_announcement_counts(
    line: Seq<u8>,
    name: Seq<u8>,
    digits: Seq<u8>,
    n: nat,
    body: Seq<u8>,
    rest: Seq<u8>,
    ended: bool,
)
    requires
        announces(line, name, digits, n),
        n <= usize::MAX,
        body.len() <= usize::MAX,
    ensures
        frame_result(line + seq![13u8, 10u8] + (framed(body) + rest), ended) == moved(
            frame_result(framed(body) + rest, ended),
            line.len() as int + 2,
        ),
{
    let behind = framed(body) + rest;
    lemma_announced(line, name, digits, n, behind, ended);
    lemma_first_line(behind, body.len(), ended, None);
    lemma_first_line(behind, body.len(), ended, Some(n as usize));
}

/// A line that is not ended by a carriage return and a line feed, or has no `: ` in it, is refused.
pub proof fn law_malformed_lines_are_refused(line: Seq<u8>, rest: Seq<u8>, ended: bool)
    requires
        forall|i: int| 0 <= i < line.len() ==> #[trigger] line[i] != 10,
    ensures
        (line.len() == 0 || line.last() != 13) && valid_utf8(line + seq![10u8]) ==> frame_result(
            line + seq![10u8] + rest,
            ended,
        ) == Err::<FrameView, ReadError>(ReadError::MalformedHeader),
        line.len() > 0 && valid_utf8(line + seq![13u8, 10u8]) && (forall|i: int|
            #![trigger line[i]]
            0 <= i < line.len() - 1 ==> !(line[i] == 58 && line[i + 1] == 32)) ==> frame_result(
            line + seq![13u8, 10u8] + rest,
            ended,
        ) == Err::<FrameView, ReadError>(ReadError::MalformedHeader),
{
    if (line.len() == 0 || line.last() != 13) && valid_utf8(line + seq![10u8]) {
        let bytes = line + seq![10u8] + rest;
        let n = line.len() as int;
        assert forall|i: int| 0 <= i < n implies #[trigger] bytes[i] != 10 by {
            assert(bytes[i] == line[i]);
        }
        assert(bytes[n] == 10);
        lemma_line_feed_at(bytes, 0, n);
        assert(bytes.subrange(0, n + 1) =~= line + seq![10u8]);
        if n > 0 {
            assert(bytes[n - 1] == line.last());
        }
    }
    if line.len() > 0 && valid_utf8(line + seq![13u8, 10u8]) && (forall|i: int|
        #![trigger line[i]]
        0 <= i < line.len() - 1 ==> !(line[i] == 58 && line[i + 1] == 32)) {
        let bytes = line + seq![13u8, 10u8] + rest;
        let end = line.len() as int + 1;
        lemma_line_ends(line, rest, 0);
        assert(bytes.subrange(0, end + 1) =~= line + seq![13u8, 10u8]);
        assert(bytes.subrange(0, end - 1) =~= line);
        assert(bytes[end - 1] == 13);
        lemma_no_separator(line, 0);
    }
}

proof fn lemma_no_separator(line: Seq<u8>, from: int)
    requires
        0 <= from,
        forall|i: int|
            #![trigger line[i]]
            0 <= i < line.len() - 1 ==> !(line[i] == 58 && line[i + 1] == 32),
    ensures
        separator(line, from) == line.len(),
    decreases line.len() - from,
{
    if from + 1 < line.len() {
        assert(!(line[from] == 58 && line[from + 1] == 32));
        lemma_no_separator(line, from + 1);
    }
}

/// A header line that is not UTF-8 is refused. A line that is not ended yet is waited for, and if the
/// stream has ended with it, it is refused.
pub proof fn law_unfinished_lines(line: Seq<u8>, rest: Seq<u8>, ended: bool)
    requires
        line.len() > 0,
        forall|i: int| 0 <= i < line.len() ==> #[trigger] line[i] != 10,
    ensures
        !valid_utf8(line + seq![10u8]) ==> frame_result(line + seq![10u8] + rest, ended) == Err::<
            FrameView,
            ReadError,
        >(ReadError::HeaderNotUtf8),
        frame_result(line, false) == Ok::<FrameView, ReadError>(FrameView::Incomplete),
        frame_result(line, true) == Err::<FrameView, ReadError>(
            if valid_utf8(line) {
                ReadError::MalformedHeader
            } else {
                ReadError::HeaderNotUtf8
            },
        ),
{
    let bytes = line + seq![10u8] + rest;
    let n = line.len() as int;
    assert forall|i: int| 0 <= i < n implies #[trigger] bytes[i] != 10 by {
        assert(bytes[i] == line[i]);
    }
    assert(bytes[n] == 10);
    lemma_line_feed_at(bytes, 0, n);
    assert(bytes.subrange(0, n + 1) =~= line + seq![10u8]);
    lemma_no_line_feed(line, 0);
    assert(line.skip(0) =~= line);
}

/// A length may have a plus sign in front, which does not matter, and has to be one that a length
/// can be.
pub proof fn law_lengths(digits: Seq<u8>)
    requires
        digits.len() > 0,
        forall|i: int| 0 <= i < digits.len() ==> 48 <= #[trigger] digits[i] <= 57,
    ensures
        length_of(digits) is Some <==> decimal_value(digits) <= usize::MAX,
        length_of(digits) matches Some(n) ==> n == decimal_value(digits),
        length_of(seq![43u8] + digits) == length_of(digits),
{
    assert((seq![43u8] + digits).skip(1) =~= digits);
}

/// A length that is not made of digits, or of none, is refused.
pub proof fn law_length_has_to_be_a_number(value: Seq<u8>, at: int, rest: Seq<u8>, ended: bool)
    requires
        valid_utf8(ascii("Content-Length: "@) + value + seq![13u8, 10u8]),
        forall|i: int| 0 <= i < value.len() ==> #[trigger] value[i] != 10,
        value.len() == 0 || (0 <= at < value.len() && !(48 <= value[at] <= 57) && (at > 0
            || value[at] != 43)),
    ensures
        frame_result(ascii("Content-Length: "@) + value + seq![13u8, 10u8] + rest, ended) == Err::<
            FrameView,
            ReadError,
        >(ReadError::InvalidContentLength),
{
    let name = ascii("Content-Length"@);
    let line = ascii("Content-Length: "@) + value;
    let bytes = line + seq![13u8, 10u8] + rest;
    let end = line.len() as int + 1;
    assert(line =~= name + seq![58u8, 32u8] + value) by {
        reveal_strlit("Content-Length: ");
        reveal_strlit("Content-Length");
    }
    assert forall|i: int| 0 <= i < name.len() implies #[trigger] name[i] != 58 && name[i] != 10 by {
        reveal_strlit("Content-Length");
    }
    assert forall|i: int| 0 <= i < line.len() implies #[trigger] line[i] != 10 by {
        if i < name.len() {
            assert(line[i] == name[i]);
        } else if i >= name.len() + 2 {
            assert(line[i] == value[i - name.len() - 2]);
        }
    }
    lemma_line_ends(line, rest, 0);
    lemma_name_ends(name, value, 0);
    assert(bytes.subrange(0, end + 1) =~= line + seq![13u8, 10u8]);
    assert(bytes.subrange(0, end - 1) =~= line);
    assert(bytes[end - 1] == 13);
    assert(line.take(name.len() as int) =~= name);
    assert(line.skip(name.len() as int + 2) =~= value);
    assert(names_length(name));
    let digits = unsigned(value);
    if value.len() > 0 {
        if value[0] == 43 {
            assert(digits[at - 1] == value[at]);
        } else {
            assert(digits[at] == value[at]);
        }
    }
    assert(length_of(value) is None);
}

/// What is read is the message that the text of the frame is, and it takes up all bytes up to the
/// end of that text. A text that is no message is refused.
pub proof fn law_text_is_read(bytes: Seq<u8>, ended: bool, from: int, to: int)
    requires
        frame_result(bytes, ended) == Ok::<FrameView, ReadError>(FrameView::Text(from, to)),
    ensures
        decoded(bytes.subrange(from, to)) matches Some(m) ==> read_result(bytes, ended) == Ok::<
            ReadView,
            ReadError,
        >(ReadView::Message(m, to)),
        decoded(bytes.subrange(from, to)) is None ==> read_result(bytes, ended) == Err::<
            ReadView,
            ReadError,
        >(ReadError::InvalidMessage),
{
}

/// While a frame is not complete and the stream has not ended, reading it waits for more.
pub proof fn law_part_of_a_frame_is_incomplete(body: Seq<u8>, n: int)
    requires
        body.len() <= usize::MAX,
        0 <= n < framed(body).len(),
    ensures
        frame_result(framed(body).take(n), false) == Ok::<FrameView, ReadError>(
            FrameView::Incomplete,
        ),
        read_result(framed(body).take(n), false) == Ok::<ReadView, ReadError>(
            ReadView::Incomplete,
        ),
{
    let size = body.len();
    let bytes = framed(body).take(n);
    let at = header(size).len() - 4;
    lemma_announcement(size);
    if n <= at + 1 {
        assert forall|i: int| 0 <= i < bytes.len() implies #[trigger] bytes[i] != 10 by {
            assert(bytes[i] == header(size)[i]);
        }
        lemma_no_line_feed(bytes, 0);
    } else {
        assert forall|i: int| 0 <= i < at + 2 implies #[trigger] bytes[i] == header(size)[i] by {}
        lemma_first_line(bytes, size, false, None);
        if n <= at + 3 {
            assert forall|i: int| at + 2 <= i < bytes.len() implies #[trigger] bytes[i] != 10 by {
                assert(bytes[i] == header(size)[i]);
            }
            lemma_no_line_feed(bytes, at + 2);
        } else {
            assert(bytes[at + 2] == header(size)[at + 2]);
            assert(bytes[at + 3] == header(size)[at + 3]);
            lemma_empty_line(bytes, size, false);
        }
    }
}

/// The header up to its last four bytes is one line of ASCII, and the four bytes end two lines.
proof fn lemma_announcement(n: nat)
    ensures
        header(n).len() == 20 + decimal(n).len(),
        forall|i: int|
            0 <= i < header(n).len() - 4 ==> #[trigger] header(n)[i] != 10 && header(n)[i] < 128,
        header(n)[header(n).len() - 4] == 13,
        header(n)[header(n).len() - 3] == 10,
        header(n)[header(n).len() - 2] == 13,
        header(n)[header(n).len() - 1] == 10,
{
    reveal_strlit("Content-Length: ");
    lemma_decimal(n);
    assert forall|i: int| 0 <= i < header(n).len() - 4 implies #[trigger] header(n)[i] != 10
        && header(n)[i] < 128 by {
        if i >= 16 {
            assert(header(n)[i] == decimal(n)[i - 16]);
        } else {
            assert(header(n)[i] == ascii("Content-Length: "@)[i]);
        }
    }
}

proof fn lemma_first_line(bytes: Seq<u8>, n: nat, ended: bool, size: Option<usize>)
    requires
        n <= usize::MAX,
        bytes.len() >= header(n).len() - 2,
        forall|i: int| 0 <= i < header(n).len() - 2 ==> #[trigger] bytes[i] == header(n)[i],
    ensures
        read_header(bytes, ended, 0, size) == read_header(
            bytes,
            ended,
            header(n).len() - 2,
            Some(n as usize),
        ),
{
    let at = header(n).len() - 4;
    let digits = decimal(n);
    lemma_announcement(n);
    lemma_decimal(n);
    lemma_line_feed_at(bytes, 0, at + 1);
    lemma_ascii_is_utf8(bytes.subrange(0, at + 2));
    let line = bytes.subrange(0, at);
    assert(line =~= ascii("Content-Length: "@) + digits) by {
        reveal_strlit("Content-Length: ");
        assert(header(n).take(at) =~= ascii("Content-Length: "@) + digits);
        assert forall|i: int| 0 <= i < at implies #[trigger] line[i] == header(n).take(at)[i] by {
            assert(bytes[i] == header(n)[i]);
        }
    }
    assert(separator(line, 0) == 14 && names_length(line.take(14))) by {
        reveal_strlit("Content-Length: ");
        reveal_strlit("Content-Length");
        lemma_separator_at(line, 0, 14);
        assert(line.take(14) =~= ascii("Content-Length"@));
    }
    assert(line.skip(16) =~= digits) by {
        reveal_strlit("Content-Length: ");
    }
    assert(length_of(digits) == Some(n as usize));
}

proof fn lemma_empty_line(bytes: Seq<u8>, n: nat, ended: bool)
    requires
        n <= usize::MAX,
        bytes.len() >= header(n).len(),
        bytes[header(n).len() - 2] == 13,
        bytes[header(n).len() - 1] == 10,
    ensures
        read_header(bytes, ended, header(n).len() - 2, Some(n as usize)) == read_body(
            bytes,
            ended,
            header(n).len() as int,
            n as usize,
        ),
{
    let from = header(n).len() - 2;
    lemma_announcement(n);
    lemma_line_feed_at(bytes, from, from + 1);
    lemma_ascii_is_utf8(bytes.subrange(from, from + 2));
}

proof fn lemma_decimal(n: nat)
    ensures
        decimal(n).len() > 0,
        all_digits(decimal(n)),
        decimal_value(decimal(n)) == n,
    decreases n,
{
    if n < 10 {
        reveal_with_fuel(decimal_value, 2);
        assert(decimal(n).drop_last() =~= Seq::<u8>::empty());
    } else {
        lemma_decimal(n / 10);
        assert(decimal(n).drop_last() =~= decimal(n / 10));
        assert((48 + n % 10) as u8 == 48 + n % 10);
    }
}

proof fn lemma_line_feed_at(bytes: Seq<u8>, from: int, at: int)
    requires
        0 <= from <= at < bytes.len(),
        bytes[at] == 10,
        forall|i: int| from <= i < at ==> #[trigger] bytes[i] != 10,
    ensures
        line_feed(bytes, from) == at,
    decreases at - from,
{
    if from < at {
        assert(bytes[from] != 10);
        lemma_line_feed_at(bytes, from + 1, at);
    }
}

proof fn lemma_no_line_feed(bytes: Seq<u8>, from: int)
    requires
        0 <= from <= bytes.len(),
        forall|i: int| from <= i < bytes.len() ==> #[trigger] bytes[i] != 10,
    ensures
        line_feed(bytes, from) == bytes.len(),
    decreases bytes.len() - from,
{
    if from < bytes.len() {
        assert(bytes[from] != 10);
        lemma_no_line_feed(bytes, from + 1);
    }
}

proof fn lemma_separator_at(line: Seq<u8>, from: int, at: int)
    requires
        0 <= from <= at,
        at + 1 < line.len(),
        line[at] == 58,
        line[at + 1] == 32,
        forall|i: int| from <= i < at ==> #[trigger] line[i] != 58,
    ensures
        separator(line, from) == at,
    decreases at - from,
{
    if from < at {
        assert(line[from] != 58);
        lemma_separator_at(line, from + 1, at);
    }
}

proof fn lemma_ascii_is_utf8(bytes: Seq<u8>)
    requires
        forall|i: int| 0 <= i < bytes.len() ==> #[trigger] bytes[i] < 128,
    ensures
        valid_utf8(bytes),
{
    assert(vstd::utf8::partial_valid_utf8(bytes, 0)) by {
        assert(bytes.subrange(0, 0) =~= Seq::<u8>::empty());
    }
    vstd::utf8::partial_valid_utf8_extend_ascii_block(bytes, 0, bytes.len() as int);
    assert(bytes.subrange(0, bytes.len() as int) =~= bytes);
}

} // verus!
