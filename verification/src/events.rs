//! Chain events and their wire framing.
//!
//! An event travels as a two-part message: a topic naming the event's kind,
//! then a payload holding the event in a self-describing text encoding — a
//! JSON object tagged with the kind, its fields in declaration order,
//! strings escaped as JSON demands. The encoding is pinned here character by
//! character, so every publisher and every subscriber sees the same bytes.
use vstd::prelude::*;
use vstd::string::*;

verus! {

/// An observation the sync loop announces to subscribers.
#[derive(Debug, Clone, PartialEq, Eq)]
pub enum ChainEvent {
    /// Wallet-owned outputs observed in one applied block: for each, the
    /// receiving address, the amount in satoshis, and the transaction id.
    NewDeposits { deposits: Vec<(String, u64, String)> },
    /// A transaction of interest with its amount and confirmation count.
    NewTransaction { txid: String, amount: u64, confirmations: u64 },
    /// A newly revealed wallet address.
    NewAddress { address: String },
}

/// The topic string of an event's kind.
pub open spec fn spec_topic_of(event: ChainEvent) -> Seq<char> {
    match event {
        ChainEvent::NewDeposits { .. } => "NewDeposits"@,
        ChainEvent::NewTransaction { .. } => "NewTransaction"@,
        ChainEvent::NewAddress { .. } => "NewAddress"@,
    }
}

/// The fixed topic an event is published under, by its kind.
pub fn topic_of(event: &ChainEvent) -> (r: &'static str)
    ensures
        r@ == spec_topic_of(*event),
{
    match event {
        ChainEvent::NewDeposits { .. } => "NewDeposits",
        ChainEvent::NewTransaction { .. } => "NewTransaction",
        ChainEvent::NewAddress { .. } => "NewAddress",
    }
}

/// The hexadecimal digit of a value below sixteen.
pub open spec fn spec_hex_char(n: int) -> char {
    if n == 0 {
        '0'
    } else if n == 1 {
        '1'
    } else if n == 2 {
        '2'
    } else if n == 3 {
        '3'
    } else if n == 4 {
        '4'
    } else if n == 5 {
        '5'
    } else if n == 6 {
        '6'
    } else if n == 7 {
        '7'
    } else if n == 8 {
        '8'
    } else if n == 9 {
        '9'
    } else if n == 10 {
        'a'
    } else if n == 11 {
        'b'
    } else if n == 12 {
        'c'
    } else if n == 13 {
        'd'
    } else if n == 14 {
        'e'
    } else {
        'f'
    }
}

/// How one character appears inside a JSON string literal: quote and
/// backslash are escaped, control characters take the six-character
/// universal escape, everything else stands as itself.
pub open spec fn spec_escape_char(c: char) -> Seq<char> {
    if c == '"' {
        seq!['\\', '"']
    } else if c == '\\' {
        seq!['\\', '\\']
    } else if (c as u32) < 0x20 {
        seq!['\\', 'u', '0', '0', spec_hex_char((c as u32) as int / 16), spec_hex_char((c as u32) as int % 16)]
    } else {
        seq![c]
    }
}

/// A character sequence escaped for a JSON string literal.
pub open spec fn spec_escape(s: Seq<char>) -> Seq<char>
    decreases s.len(),
{
    if s.len() == 0 {
        Seq::empty()
    } else {
        spec_escape_char(s[0]) + spec_escape(s.drop_first())
    }
}

/// A JSON string literal: the escaped characters between quotes.
pub open spec fn spec_json_string(s: Seq<char>) -> Seq<char> {
    seq!['"'] + spec_escape(s) + seq!['"']
}

/// The decimal digits of a non-negative number, most significant first.
pub open spec fn spec_dec(n: int) -> Seq<char>
    recommends
        n >= 0,
    decreases n,
{
    if n < 10 {
        seq![spec_hex_char(if n < 0 { 0 } else { n })]
    } else {
        spec_dec(n / 10) + seq![spec_hex_char(n % 10)]
    }
}

/// One deposit as a JSON array: address, amount, transaction id.
pub open spec fn spec_deposit_json(d: (Seq<char>, u64, Seq<char>)) -> Seq<char> {
    seq!['['] + spec_json_string(d.0) + seq![','] + spec_dec(d.1 as int) + seq![',']
        + spec_json_string(d.2) + seq![']']
}

/// The deposits from index `i` on, as comma-separated JSON arrays.
pub open spec fn spec_deposits_json_from(ds: Seq<(Seq<char>, u64, Seq<char>)>, i: int) -> Seq<char>
    decreases ds.len() - i,
{
    if i < 0 || i >= ds.len() {
        Seq::empty()
    } else if i == ds.len() - 1 {
        spec_deposit_json(ds[i])
    } else {
        spec_deposit_json(ds[i]) + seq![','] + spec_deposits_json_from(ds, i + 1)
    }
}

/// The payload an event is serialized to: a JSON object tagged with the
/// event's kind, fields in declaration order.
pub open spec fn spec_event_json(event: ChainEvent) -> Seq<char> {
    match event {
        ChainEvent::NewDeposits { deposits } => "{\"NewDeposits\":{\"deposits\":["@
            + spec_deposits_json_from(deposits.deep_view(), 0) + "]}}"@,
        ChainEvent::NewTransaction { txid, amount, confirmations } => "{\"NewTransaction\":{\"txid\":"@
            + spec_json_string(txid@) + ",\"amount\":"@ + spec_dec(amount as int)
            + ",\"confirmations\":"@ + spec_dec(confirmations as int) + "}}"@,
        ChainEvent::NewAddress { address } => "{\"NewAddress\":{\"address\":"@ + spec_json_string(
            address@,
        ) + "}}"@,
    }
}

/// The hexadecimal digit of a value below sixteen, as a one-character
/// string.
fn hex_str(n: u64) -> (r: &'static str)
    requires
        n < 16,
    ensures
        r@ == seq![spec_hex_char(n as int)],
{
    proof {
        reveal_strlit("0");
        reveal_strlit("1");
        reveal_strlit("2");
        reveal_strlit("3");
        reveal_strlit("4");
        reveal_strlit("5");
        reveal_strlit("6");
        reveal_strlit("7");
        reveal_strlit("8");
        reveal_strlit("9");
        reveal_strlit("a");
        reveal_strlit("b");
        reveal_strlit("c");
        reveal_strlit("d");
        reveal_strlit("e");
        reveal_strlit("f");
    }
    let r = match n {
        0 => "0",
        1 => "1",
        2 => "2",
        3 => "3",
        4 => "4",
        5 => "5",
        6 => "6",
        7 => "7",
        8 => "8",
        9 => "9",
        10 => "a",
        11 => "b",
        12 => "c",
        13 => "d",
        14 => "e",
        _ => "f",
    };
    proof {
        assert(r@ =~= seq![spec_hex_char(n as int)]);
    }
    r
}

/// The decimal text of a number, most significant digit first.
pub fn u64_to_dec(n: u64) -> (r: String)
    ensures
        r@ == spec_dec(n as int),
    decreases n,
{
    if n < 10 {
        hex_str(n).to_owned()
    } else {
        assert(n / 10 < n);
        let mut s = u64_to_dec(n / 10);
        s.append(hex_str(n % 10));
        proof {
            assert(s@ =~= spec_dec(n as int));
        }
        s
    }
}

/// Escaping distributes over appending one character at the end.
proof fn lemma_escape_snoc(s: Seq<char>, c: char)
    ensures
        spec_escape(s + seq![c]) == spec_escape(s) + spec_escape_char(c),
    decreases s.len(),
{
    if s.len() == 0 {
        assert((s + seq![c])[0] == c);
        assert((s + seq![c]).drop_first() =~= Seq::<char>::empty());
        assert(s =~= Seq::<char>::empty());
        assert(spec_escape(Seq::<char>::empty()) =~= Seq::<char>::empty());
        assert(spec_escape(s + seq![c]) =~= spec_escape(s) + spec_escape_char(c));
    } else {
        assert((s + seq![c])[0] == s[0]);
        assert((s + seq![c]).drop_first() =~= s.drop_first() + seq![c]);
        lemma_escape_snoc(s.drop_first(), c);
        assert(spec_escape(s + seq![c]) =~= spec_escape(s) + spec_escape_char(c));
    }
}

/// The characters of a string escaped for a JSON string literal.
fn escape_json(s: &str) -> (r: String)
    ensures
        r@ == spec_escape(s@),
{
    let len = s.unicode_len();
    let mut out = String::new();
    let mut i: usize = 0;
    while i < len
        invariant
            i <= len,
            len == s@.len(),
            out@ == spec_escape(s@.take(i as int)),
        decreases len - i,
    {
        let c = s.get_char(i);
        let ghost prefix = s@.take(i as int);
        proof {
            lemma_escape_snoc(prefix, c);
            assert(prefix + seq![c] =~= s@.take(i as int + 1));
        }
        if c == '"' {
            proof {
                reveal_strlit("\\\"");
                assert("\\\""@ =~= spec_escape_char(c));
            }
            out.append("\\\"");
        } else if c == '\\' {
            proof {
                reveal_strlit("\\\\");
                assert("\\\\"@ =~= spec_escape_char(c));
            }
            out.append("\\\\");
        } else if (c as u32) < 0x20 {
            let code = c as u32;
            proof {
                reveal_strlit("\\u00");
            }
            out.append("\\u00");
            out.append(hex_str((code / 16) as u64));
            out.append(hex_str((code % 16) as u64));
            proof {
                assert(out@ =~= spec_escape(prefix) + spec_escape_char(c));
            }
        } else {
            let piece = s.substring_char(i, i + 1);
            proof {
                assert(piece@ =~= seq![c]);
                assert(seq![c] =~= spec_escape_char(c));
            }
            out.append(piece);
        }
        i += 1;
    }
    proof {
        assert(s@.take(len as int) =~= s@);
    }
    out
}

/// A string as a JSON string literal: quoted, with its characters escaped.
pub fn json_string(s: &str) -> (r: String)
    ensures
        r@ == spec_json_string(s@),
{
    proof {
        reveal_strlit("\"");
    }
    let mut out = String::from_str("\"");
    out.append(escape_json(s).as_str());
    out.append("\"");
    proof {
        assert(out@ =~= spec_json_string(s@));
    }
    out
}

/// One deposit entry as a JSON array of address, amount and transaction id.
fn deposit_json(d: &(String, u64, String)) -> (r: String)
    ensures
        r@ == spec_deposit_json(d.deep_view()),
{
    proof {
        reveal_strlit("[");
        reveal_strlit(",");
        reveal_strlit("]");
    }
    let mut out = String::from_str("[");
    out.append(json_string(d.0.as_str()).as_str());
    out.append(",");
    out.append(u64_to_dec(d.1).as_str());
    out.append(",");
    out.append(json_string(d.2.as_str()).as_str());
    out.append("]");
    proof {
        assert(out@ =~= spec_deposit_json(d.deep_view()));
    }
    out
}

/// The deposit entries from index `i` on, comma-separated.
fn deposits_json_from(ds: &Vec<(String, u64, String)>, i: usize) -> (r: String)
    requires
        i <= ds@.len(),
    ensures
        r@ == spec_deposits_json_from(ds.deep_view(), i as int),
    decreases ds@.len() - i,
{
    if i >= ds.len() {
        String::new()
    } else if i == ds.len() - 1 {
        deposit_json(&ds[i])
    } else {
        proof {
            reveal_strlit(",");
        }
        let mut out = deposit_json(&ds[i]);
        out.append(",");
        out.append(deposits_json_from(ds, i + 1).as_str());
        proof {
            assert(out@ =~= spec_deposits_json_from(ds.deep_view(), i as int));
        }
        out
    }
}

/// Serialize an event to its payload text.
pub fn encode_event(event: &ChainEvent) -> (r: String)
    ensures
        r@ == spec_event_json(*event),
{
    match event {
        ChainEvent::NewDeposits { deposits } => {
            let mut out = String::from_str("{\"NewDeposits\":{\"deposits\":[");
            out.append(deposits_json_from(deposits, 0).as_str());
            out.append("]}}");
            proof {
                assert(out@ =~= spec_event_json(*event));
            }
            out
        },
        ChainEvent::NewTransaction { txid, amount, confirmations } => {
            let mut out = String::from_str("{\"NewTransaction\":{\"txid\":");
            out.append(json_string(txid.as_str()).as_str());
            out.append(",\"amount\":");
            out.append(u64_to_dec(*amount).as_str());
            out.append(",\"confirmations\":");
            out.append(u64_to_dec(*confirmations).as_str());
            out.append("}}");
            proof {
                assert(out@ =~= spec_event_json(*event));
            }
            out
        },
        ChainEvent::NewAddress { address } => {
            let mut out = String::from_str("{\"NewAddress\":{\"address\":");
            out.append(json_string(address.as_str()).as_str());
            out.append("}}");
            proof {
                assert(out@ =~= spec_event_json(*event));
            }
            out
        },
    }
}

/// The two parts of an event's wire message: its topic and its payload.
pub fn frame_event(event: &ChainEvent) -> (r: (&'static str, String))
    ensures
        r.0@ == spec_topic_of(*event),
        r.1@ == spec_event_json(*event),
{
    let topic = topic_of(event);
    let payload = encode_event(event);
    (topic, payload)
}

} // verus!
