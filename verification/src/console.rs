//! The lines the programs print about what they received.
use vstd::prelude::*;
use vstd::string::*;

verus! {

/// The line a plain subscriber prints for a message: the envelope in
/// brackets, a space, then the message.
pub open spec fn envelope_line_view(envelope: Seq<char>, message: Seq<char>) -> Seq<char> {
    "["@ + envelope + "] "@ + message
}

/// The line a plain subscriber prints for a message.
pub fn envelope_line(envelope: &str, message: &str) -> (line: String)
    ensures
        line@ == envelope_line_view(envelope@, message@),
{
    let mut line = String::from_str("[");
    line.append(envelope);
    line.append("] ");
    line.append(message);
    line
}

/// The line a callback prints for one field of the message it got.
pub open spec fn report_line_view(field: Seq<char>, value: Seq<char>) -> Seq<char> {
    "Got Response with "@ + field + " "@ + value
}

/// The line a callback prints for one field of the message it got.
pub fn report_line(field: &str, value: &str) -> (line: String)
    ensures
        line@ == report_line_view(field@, value@),
{
    let mut line = String::from_str("Got Response with ");
    line.append(field);
    line.append(" ");
    line.append(value);
    line
}

/// How many requests the request client sends.
pub const REQUEST_ROUNDS: u32 = 10;

/// The line the request client prints for a reply: the request's number
/// (as text) and the reply.
pub open spec fn reply_line_view(number: Seq<char>, reply: Seq<char>) -> Seq<char> {
    "Received reply "@ + number + " "@ + reply
}

/// The line the request client prints for a reply.
pub fn reply_line(number: &str, reply: &str) -> (line: String)
    ensures
        line@ == reply_line_view(number@, reply@),
{
    let mut line = String::from_str("Received reply ");
    line.append(number);
    line.append(" ");
    line.append(reply);
    line
}

/// The line the reply worker prints for a request.
pub open spec fn request_line_view(request: Seq<char>) -> Seq<char> {
    "Received request: "@ + request
}

/// The line the reply worker prints for a request.
pub fn request_line(request: &str) -> (line: String)
    ensures
        line@ == request_line_view(request@),
{
    let mut line = String::from_str("Received request: ");
    line.append(request);
    line
}

/// The plain subscriber's line: `[`, the envelope, `] `, then the message,
/// whole and unchanged, to the end of the line.
pub proof fn lemma_envelope_line_parts(envelope: Seq<char>, message: Seq<char>)
    ensures
        ({
            let line = envelope_line_view(envelope, message);
            let e = envelope.len() as int;
            &&& line.len() == envelope.len() + message.len() + 3
            &&& line[0] == '['
            &&& line.subrange(1, 1 + e) == envelope
            &&& line[1 + e] == ']'
            &&& line[2 + e] == ' '
            &&& line.subrange(3 + e, line.len() as int) == message
        }),
{
    reveal_strlit("[");
    reveal_strlit("] ");
    let line = envelope_line_view(envelope, message);
    let e = envelope.len() as int;
    assert(line.subrange(1, 1 + e) =~= envelope);
    assert(line.subrange(3 + e, line.len() as int) =~= message);
}

/// A callback's line: the fixed opening, the field's name, a space, then
/// the value, whole and unchanged, to the end of the line.
pub proof fn lemma_report_line_parts(field: Seq<char>, value: Seq<char>)
    ensures
        ({
            let line = report_line_view(field, value);
            let f = field.len() as int;
            &&& line.len() == 18 + field.len() + 1 + value.len()
            &&& line.subrange(0, 18) == "Got Response with "@
            &&& line.subrange(18, 18 + f) == field
            &&& line[18 + f] == ' '
            &&& line.subrange(19 + f, line.len() as int) == value
        }),
{
    reveal_strlit("Got Response with ");
    reveal_strlit(" ");
    let line = report_line_view(field, value);
    let f = field.len() as int;
    assert(line.subrange(0, 18) =~= "Got Response with "@);
    assert(line.subrange(18, 18 + f) =~= field);
    assert(line.subrange(19 + f, line.len() as int) =~= value);
}

/// The request client's line: the fixed opening, the request's number, a
/// space, then the reply, whole and unchanged, to the end of the line.
pub proof fn lemma_reply_line_parts(number: Seq<char>, reply: Seq<char>)
    ensures
        ({
            let line = reply_line_view(number, reply);
            let n = number.len() as int;
            &&& line.len() == 15 + number.len() + 1 + reply.len()
            &&& line.subrange(0, 15) == "Received reply "@
            &&& line.subrange(15, 15 + n) == number
            &&& line[15 + n] == ' '
            &&& line.subrange(16 + n, line.len() as int) == reply
        }),
{
    reveal_strlit("Received reply ");
    reveal_strlit(" ");
    let line = reply_line_view(number, reply);
    let n = number.len() as int;
    assert(line.subrange(0, 15) =~= "Received reply "@);
    assert(line.subrange(15, 15 + n) =~= number);
    assert(line.subrange(16 + n, line.len() as int) =~= reply);
}

/// The reply worker's line: the fixed opening, then the request, whole and
/// unchanged, to the end of the line.
pub proof fn lemma_request_line_parts(request: Seq<char>)
    ensures
        ({
            let line = request_line_view(request);
            &&& line.len() == 18 + request.len()
            &&& line.subrange(0, 18) == "Received request: "@
            &&& line.subrange(18, line.len() as int) == request
        }),
{
    reveal_strlit("Received request: ");
    let line = request_line_view(request);
    assert(line.subrange(0, 18) =~= "Received request: "@);
    assert(line.subrange(18, line.len() as int) =~= request);
}

} // verus!
