//! The answer to a request for the web page.

use crate::text::{decimal, decimal_text, law_decimal, number_in};
use vstd::prelude::*;
use vstd::string::*;

verus! {

/// The header of the answer that carries a page of `length` bytes.
pub open spec fn page_header(length: nat) -> Seq<char> {
    "HTTP/1.1 200 OK\r\nContent-Type: text/html; charset=utf-8\r\nContent-Length: "@ + decimal(
        length,
    ) + "\r\nConnection: close\r\n\r\n"@
}

/// Makes the header of the answer that carries a page of `length` bytes.
pub fn header(length: usize) -> (r: String)
    ensures
        r@ == page_header(length as nat),
{
    let mut r = "HTTP/1.1 200 OK\r\nContent-Type: text/html; charset=utf-8\r\nContent-Length: ".to_owned();
    r.append(decimal_text(length).as_str());
    r.append("\r\nConnection: close\r\n\r\n");
    r
}

/// The header tells, in four lines that a blank one ends, that the page was found, that it is
/// HTML, how many bytes it has, and that nothing follows it: between the fixed texts stand the
/// decimal digits of the length and nothing else.
pub proof fn law_header(length: nat)
    ensures
        ({
            let head =
                "HTTP/1.1 200 OK\r\nContent-Type: text/html; charset=utf-8\r\nContent-Length: "@;
            let tail = "\r\nConnection: close\r\n\r\n"@;
            let h = page_header(length);
            let digits = h.subrange(head.len() as int, h.len() - tail.len());
            &&& h.len() > head.len() + tail.len()
            &&& h.take(head.len() as int) == head
            &&& h.skip(h.len() - tail.len()) == tail
            &&& forall|i: int| 0 <= i < digits.len() ==> 48 <= (#[trigger] digits[i]) as int <= 57
            &&& number_in(digits) == length
        }),
{
    let head = "HTTP/1.1 200 OK\r\nContent-Type: text/html; charset=utf-8\r\nContent-Length: "@;
    let tail = "\r\nConnection: close\r\n\r\n"@;
    let h = page_header(length);
    law_decimal(length);
    assert(h.subrange(head.len() as int, h.len() - tail.len()) =~= decimal(length));
    assert(h.take(head.len() as int) =~= head);
    assert(h.skip(h.len() - tail.len()) =~= tail);
}

} // verus!
