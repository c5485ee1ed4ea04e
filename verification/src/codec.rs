//! The binary encoding of a vault.
//!
//! Integers are written most significant byte first. A text is the number of
//! bytes of its UTF-8 form as a 64-bit integer, then those bytes. A record is
//! a 32-bit tag, 0 for credentials and 1 for a command, then its fields in
//! the order of their declaration. A vault is the number of its records as a
//! 64-bit integer, then the records in order. Nothing may follow the last
//! record.
use crate::domain::{lemma_deep_view_push, Entry, Record};
use vstd::prelude::*;
use vstd::utf8::*;

verus! {

/// The four bytes of `x`, most significant first.
pub open spec fn u32_be(x: u32) -> Seq<u8> {
    seq![(x >> 24) as u8, (x >> 16) as u8, (x >> 8) as u8, x as u8]
}

/// The eight bytes of `x`, most significant first.
pub open spec fn u64_be(x: u64) -> Seq<u8> {
    seq![
        (x >> 56) as u8,
        (x >> 48) as u8,
        (x >> 40) as u8,
        (x >> 32) as u8,
        (x >> 24) as u8,
        (x >> 16) as u8,
        (x >> 8) as u8,
        x as u8,
    ]
}

/// The number that four bytes spell, most significant first.
pub open spec fn be_u32(b: Seq<u8>) -> u32 {
    (b[0] as u32) << 24 | (b[1] as u32) << 16 | (b[2] as u32) << 8 | (b[3] as u32)
}

/// The number that eight bytes spell, most significant first.
pub open spec fn be_u64(b: Seq<u8>) -> u64 {
    (b[0] as u64) << 56 | (b[1] as u64) << 48 | (b[2] as u64) << 40 | (b[3] as u64) << 32 | (
    b[4] as u64) << 24 | (b[5] as u64) << 16 | (b[6] as u64) << 8 | (b[7] as u64)
}

/// Reading back what `u32_be` wrote gives the number written.
pub proof fn lemma_u32_be_read(x: u32)
    ensures
        u32_be(x).len() == 4,
        be_u32(u32_be(x)) == x,
{
    assert((((x >> 24) as u8) as u32) << 24 | (((x >> 16) as u8) as u32) << 16 | (((x >> 8) as u8)
        as u32) << 8 | ((x as u8) as u32) == x) by (bit_vector);
}

/// Writing the number that four bytes spell gives those bytes.
pub proof fn lemma_u32_be_write(b: Seq<u8>)
    requires
        b.len() == 4,
    ensures
        u32_be(be_u32(b)) == b,
{
    let (b0, b1, b2, b3) = (b[0], b[1], b[2], b[3]);
    let x = (b0 as u32) << 24 | (b1 as u32) << 16 | (b2 as u32) << 8 | (b3 as u32);
    assert(x == (b0 as u32) << 24 | (b1 as u32) << 16 | (b2 as u32) << 8 | (b3 as u32) ==> (x
        >> 24) as u8 == b0 && (x >> 16) as u8 == b1 && (x >> 8) as u8 == b2 && x as u8 == b3)
        by (bit_vector);
    assert(u32_be(be_u32(b)) =~= b);
}

/// Reading back what `u64_be` wrote gives the number written.
pub proof fn lemma_u64_be_read(x: u64)
    ensures
        u64_be(x).len() == 8,
        be_u64(u64_be(x)) == x,
{
    assert((((x >> 56) as u8) as u64) << 56 | (((x >> 48) as u8) as u64) << 48 | (((x >> 40) as u8)
        as u64) << 40 | (((x >> 32) as u8) as u64) << 32 | (((x >> 24) as u8) as u64) << 24 | (((x
        >> 16) as u8) as u64) << 16 | (((x >> 8) as u8) as u64) << 8 | ((x as u8) as u64) == x)
        by (bit_vector);
}

/// Writing the number that eight bytes spell gives those bytes.
pub proof fn lemma_u64_be_write(b: Seq<u8>)
    requires
        b.len() == 8,
    ensures
        u64_be(be_u64(b)) == b,
{
    let (b0, b1, b2, b3) = (b[0], b[1], b[2], b[3]);
    let (b4, b5, b6, b7) = (b[4], b[5], b[6], b[7]);
    let x = (b0 as u64) << 56 | (b1 as u64) << 48 | (b2 as u64) << 40 | (b3 as u64) << 32 | (b4
        as u64) << 24 | (b5 as u64) << 16 | (b6 as u64) << 8 | (b7 as u64);
    assert(x == (b0 as u64) << 56 | (b1 as u64) << 48 | (b2 as u64) << 40 | (b3 as u64) << 32 | (b4
        as u64) << 24 | (b5 as u64) << 16 | (b6 as u64) << 8 | (b7 as u64) ==> (x >> 56) as u8
        == b0 && (x >> 48) as u8 == b1 && (x >> 40) as u8 == b2 && (x >> 32) as u8 == b3 && (x
        >> 24) as u8 == b4 && (x >> 16) as u8 == b5 && (x >> 8) as u8 == b6 && x as u8 == b7)
        by (bit_vector);
    assert(u64_be(be_u64(b)) =~= b);
}

/// The bytes of a text: the length of its UTF-8 form, then that form.
pub open spec fn text_bytes(t: Seq<char>) -> Seq<u8> {
    u64_be(encode_utf8(t).len() as u64) + encode_utf8(t)
}

/// The bytes of one entry: its tag, then its fields.
pub open spec fn entry_bytes(e: Entry) -> Seq<u8> {
    match e {
        Entry::Credentials { domain, username, password } => u32_be(0) + text_bytes(domain)
            + text_bytes(username) + text_bytes(password),
        Entry::Command { name, command_line } => u32_be(1) + text_bytes(name) + text_bytes(
            command_line,
        ),
    }
}

/// The bytes of the entries, one after the other.
pub open spec fn entries_bytes(es: Seq<Entry>) -> Seq<u8>
    decreases es.len(),
{
    if es.len() == 0 {
        Seq::empty()
    } else {
        entries_bytes(es.drop_last()) + entry_bytes(es.last())
    }
}

/// The bytes of a vault: the number of its entries, then the entries.
pub open spec fn vault_bytes(es: Seq<Entry>) -> Seq<u8> {
    u64_be(es.len() as u64) + entries_bytes(es)
}

/// The length of the text's UTF-8 form can be written in 64 bits.
pub open spec fn text_fits(t: Seq<char>) -> bool {
    encode_utf8(t).len() <= u64::MAX
}

/// Each field of the entry fits.
pub open spec fn entry_fits(e: Entry) -> bool {
    match e {
        Entry::Credentials { domain, username, password } => text_fits(domain) && text_fits(
            username,
        ) && text_fits(password),
        Entry::Command { name, command_line } => text_fits(name) && text_fits(command_line),
    }
}

/// The number of entries can be written in 64 bits, and each entry fits.
/// Every `Vec<Record>` is such a sequence.
pub open spec fn fits(es: Seq<Entry>) -> bool {
    es.len() <= u64::MAX && forall|i: int| 0 <= i < es.len() ==> entry_fits(#[trigger] es[i])
}

/// `b` is the encoding of `es`.
pub open spec fn encodes(es: Seq<Entry>, b: Seq<u8>) -> bool {
    fits(es) && vault_bytes(es) == b
}

/// The vault that `b` encodes, if it encodes one.
pub open spec fn decoding(b: Seq<u8>) -> Option<Seq<Entry>> {
    if exists|es: Seq<Entry>| encodes(es, b) {
        Some(choose|es: Seq<Entry>| encodes(es, b))
    } else {
        None
    }
}

// What a reader finds at a position: the value and the position behind it.

spec fn read_u32(b: Seq<u8>, at: int) -> Option<(u32, int)> {
    if 0 <= at && at + 4 <= b.len() {
        Some((be_u32(b.subrange(at, at + 4)), at + 4))
    } else {
        None
    }
}

spec fn read_u64(b: Seq<u8>, at: int) -> Option<(u64, int)> {
    if 0 <= at && at + 8 <= b.len() {
        Some((be_u64(b.subrange(at, at + 8)), at + 8))
    } else {
        None
    }
}

spec fn read_text(b: Seq<u8>, at: int) -> Option<(Seq<char>, int)> {
    match read_u64(b, at) {
        Some((n, p)) => if p + n <= b.len() && valid_utf8(b.subrange(p, p + n)) {
            Some((decode_utf8(b.subrange(p, p + n)), p + n))
        } else {
            None
        },
        None => None,
    }
}

spec fn read_credentials(b: Seq<u8>, at: int) -> Option<(Entry, int)> {
    match read_text(b, at) {
        Some((domain, p)) => match read_text(b, p) {
            Some((username, q)) => match read_text(b, q) {
                Some((password, r)) => Some((Entry::Credentials { domain, username, password }, r)),
                None => None,
            },
            None => None,
        },
        None => None,
    }
}

spec fn read_command(b: Seq<u8>, at: int) -> Option<(Entry, int)> {
    match read_text(b, at) {
        Some((name, p)) => match read_text(b, p) {
            Some((command_line, q)) => Some((Entry::Command { name, command_line }, q)),
            None => None,
        },
        None => None,
    }
}

spec fn read_entry(b: Seq<u8>, at: int) -> Option<(Entry, int)> {
    match read_u32(b, at) {
        Some((tag, p)) => if tag == 0 {
            read_credentials(b, p)
        } else if tag == 1 {
            read_command(b, p)
        } else {
            None
        },
        None => None,
    }
}

#[verifier::opaque]
spec fn read_entries(b: Seq<u8>, at: int, n: nat) -> Option<(Seq<Entry>, int)>
    decreases n,
{
    if n == 0 {
        Some((Seq::empty(), at))
    } else {
        match read_entries(b, at, (n - 1) as nat) {
            Some((es, p)) => match read_entry(b, p) {
                Some((e, q)) => Some((es.push(e), q)),
                None => None,
            },
            None => None,
        }
    }
}

spec fn read_vault(b: Seq<u8>) -> Option<Seq<Entry>> {
    match read_u64(b, 0) {
        Some((n, p)) => match read_entries(b, p, n as nat) {
            Some((es, q)) => if q == b.len() {
                Some(es)
            } else {
                None
            },
            None => None,
        },
        None => None,
    }
}

/// `x` stands in `b` at position `at`.
#[verifier::opaque]
spec fn holds_at(b: Seq<u8>, at: int, x: Seq<u8>) -> bool {
    0 <= at && at + x.len() <= b.len() && b.subrange(at, at + x.len()) == x
}

proof fn lemma_holds_at_split(b: Seq<u8>, at: int, x: Seq<u8>, y: Seq<u8>)
    requires
        holds_at(b, at, x + y),
    ensures
        holds_at(b, at, x),
        holds_at(b, at + x.len(), y),
{
    reveal(holds_at);
    let whole = b.subrange(at, at + (x + y).len());
    assert(b.subrange(at, at + x.len()) =~= whole.subrange(0, x.len() as int));
    assert(whole.subrange(0, x.len() as int) =~= x);
    assert(b.subrange(at + x.len(), at + x.len() + y.len()) =~= whole.subrange(
        x.len() as int,
        (x + y).len() as int,
    ));
    assert(whole.subrange(x.len() as int, (x + y).len() as int) =~= y);
}

proof fn lemma_read_u32_complete(b: Seq<u8>, at: int, x: u32)
    requires
        holds_at(b, at, u32_be(x)),
    ensures
        read_u32(b, at) == Some((x, at + 4)),
{
    reveal(holds_at);
    lemma_u32_be_read(x);
}

proof fn lemma_read_u64_complete(b: Seq<u8>, at: int, x: u64)
    requires
        holds_at(b, at, u64_be(x)),
    ensures
        read_u64(b, at) == Some((x, at + 8)),
{
    reveal(holds_at);
    lemma_u64_be_read(x);
}

proof fn lemma_subrange_join(b: Seq<u8>, at: int, mid: int, to: int)
    requires
        0 <= at <= mid <= to <= b.len(),
    ensures
        b.subrange(at, to) == b.subrange(at, mid) + b.subrange(mid, to),
{
    assert(b.subrange(at, to) =~= b.subrange(at, mid) + b.subrange(mid, to));
}

proof fn lemma_read_text_sound(b: Seq<u8>, at: int)
    ensures
        read_text(b, at) matches Some((t, q)) ==> 0 <= at < q <= b.len() && text_fits(t)
            && b.subrange(at, q) == text_bytes(t),
{
    if let Some((t, q)) = read_text(b, at) {
        let (n, p) = read_u64(b, at).unwrap();
        let body = b.subrange(p, p + n);
        decode_utf8_encode_utf8(body);
        lemma_u64_be_write(b.subrange(at, at + 8));
        lemma_subrange_join(b, at, p, q);
    }
}

proof fn lemma_read_text_complete(b: Seq<u8>, at: int, t: Seq<char>)
    requires
        text_fits(t),
        holds_at(b, at, text_bytes(t)),
    ensures
        read_text(b, at) == Some((t, at + text_bytes(t).len())),
{
    let body = encode_utf8(t);
    let head = u64_be(body.len() as u64);
    lemma_holds_at_split(b, at, head, body);
    lemma_read_u64_complete(b, at, body.len() as u64);
    assert(at + 8 + body.len() <= b.len() && b.subrange(at + 8, at + 8 + body.len()) == body) by {
        reveal(holds_at);
    }
    encode_utf8_valid_utf8(t);
    encode_utf8_decode_utf8(t);
}

proof fn lemma_read_entry_sound(b: Seq<u8>, at: int)
    ensures
        read_entry(b, at) matches Some((e, q)) ==> 0 <= at < q <= b.len() && entry_fits(e)
            && b.subrange(at, q) == entry_bytes(e),
{
    if let Some((e, q)) = read_entry(b, at) {
        let (tag, at0) = read_u32(b, at).unwrap();
        lemma_u32_be_write(b.subrange(at, at + 4));
        lemma_read_text_sound(b, at0);
        let (_, at1) = read_text(b, at0).unwrap();
        lemma_read_text_sound(b, at1);
        let (_, at2) = read_text(b, at1).unwrap();
        lemma_subrange_join(b, at, at0, at1);
        lemma_subrange_join(b, at, at1, at2);
        if tag == 0 {
            lemma_read_text_sound(b, at2);
            lemma_subrange_join(b, at, at2, q);
        }
    }
}

proof fn lemma_read_entry_complete(b: Seq<u8>, at: int, e: Entry)
    requires
        entry_fits(e),
        holds_at(b, at, entry_bytes(e)),
    ensures
        read_entry(b, at) == Some((e, at + entry_bytes(e).len())),
{
    match e {
        Entry::Credentials { domain, username, password } => {
            let (t0, t1, t2, t3) = (
                u32_be(0),
                text_bytes(domain),
                text_bytes(username),
                text_bytes(password),
            );
            lemma_holds_at_split(b, at, t0 + t1 + t2, t3);
            lemma_holds_at_split(b, at, t0 + t1, t2);
            lemma_holds_at_split(b, at, t0, t1);
            lemma_read_u32_complete(b, at, 0);
            lemma_read_text_complete(b, at + 4, domain);
            lemma_read_text_complete(b, at + 4 + t1.len(), username);
            lemma_read_text_complete(b, at + 4 + t1.len() + t2.len(), password);
        },
        Entry::Command { name, command_line } => {
            let (t0, t1, t2) = (u32_be(1), text_bytes(name), text_bytes(command_line));
            lemma_holds_at_split(b, at, t0 + t1, t2);
            lemma_holds_at_split(b, at, t0, t1);
            lemma_read_u32_complete(b, at, 1);
            lemma_read_text_complete(b, at + 4, name);
            lemma_read_text_complete(b, at + 4 + t1.len(), command_line);
        },
    }
}

proof fn lemma_read_entries_sound(b: Seq<u8>, at: int, n: nat)
    requires
        0 <= at <= b.len(),
    ensures
        read_entries(b, at, n) matches Some((es, q)) ==> es.len() == n && at <= q <= b.len() && (
        forall|i: int| 0 <= i < es.len() ==> entry_fits(#[trigger] es[i])) && b.subrange(at, q)
            == entries_bytes(es),
    decreases n,
{
    reveal_with_fuel(read_entries, 2);
    if n == 0 {
        assert(b.subrange(at, at) =~= Seq::<u8>::empty());
    } else {
        lemma_read_entries_sound(b, at, (n - 1) as nat);
        if let Some((es, p)) = read_entries(b, at, (n - 1) as nat) {
            lemma_read_entry_sound(b, p);
            if let Some((e, q)) = read_entry(b, p) {
                lemma_subrange_join(b, at, p, q);
                assert(es.push(e).drop_last() =~= es);
            }
        }
    }
}

proof fn lemma_read_entries_complete(b: Seq<u8>, at: int, es: Seq<Entry>)
    requires
        forall|i: int| 0 <= i < es.len() ==> entry_fits(#[trigger] es[i]),
        holds_at(b, at, entries_bytes(es)),
    ensures
        read_entries(b, at, es.len()) == Some((es, at + entries_bytes(es).len())),
    decreases es.len(),
{
    reveal_with_fuel(read_entries, 2);
    if es.len() > 0 {
        let front = es.drop_last();
        lemma_holds_at_split(b, at, entries_bytes(front), entry_bytes(es.last()));
        lemma_read_entries_complete(b, at, front);
        lemma_read_entry_complete(b, at + entries_bytes(front).len(), es.last());
        assert(front.push(es.last()) =~= es);
    }
}

proof fn lemma_read_vault_sound(b: Seq<u8>)
    ensures
        read_vault(b) matches Some(es) ==> encodes(es, b),
{
    if let Some(es) = read_vault(b) {
        let (n, p) = read_u64(b, 0).unwrap();
        lemma_u64_be_write(b.subrange(0, 8));
        lemma_read_entries_sound(b, p, n as nat);
        lemma_subrange_join(b, 0, 8, b.len() as int);
        assert(b.subrange(0, b.len() as int) =~= b);
    }
}

proof fn lemma_read_vault_complete(b: Seq<u8>, es: Seq<Entry>)
    requires
        encodes(es, b),
    ensures
        read_vault(b) == Some(es),
{
    let head = u64_be(es.len() as u64);
    assert(holds_at(b, 0, head + entries_bytes(es))) by {
        reveal(holds_at);
        assert(b.subrange(0, b.len() as int) =~= b);
    }
    lemma_holds_at_split(b, 0, head, entries_bytes(es));
    lemma_read_u64_complete(b, 0, es.len() as u64);
    lemma_read_entries_complete(b, 8, es);
}

/// A sequence of bytes encodes at most one vault.
pub proof fn lemma_encoding_is_injective(a: Seq<Entry>, b: Seq<Entry>)
    requires
        fits(a),
        fits(b),
        vault_bytes(a) == vault_bytes(b),
    ensures
        a == b,
{
    lemma_read_vault_complete(vault_bytes(a), a);
    lemma_read_vault_complete(vault_bytes(a), b);
}

/// Decoding what a vault was encoded to gives the vault back.
pub proof fn lemma_decoding_inverts_encoding(es: Seq<Entry>)
    requires
        fits(es),
    ensures
        decoding(vault_bytes(es)) == Some(es),
{
    let b = vault_bytes(es);
    assert(encodes(es, b));
    let found = choose|found: Seq<Entry>| encodes(found, b);
    lemma_encoding_is_injective(found, es);
}

proof fn lemma_decoding_is_reading(b: Seq<u8>)
    ensures
        decoding(b) == read_vault(b),
{
    lemma_read_vault_sound(b);
    if exists|es: Seq<Entry>| encodes(es, b) {
        let found = choose|es: Seq<Entry>| encodes(es, b);
        lemma_read_vault_complete(b, found);
    }
}

fn put_u32(out: &mut Vec<u8>, x: u32)
    ensures
        final(out)@ == old(out)@ + u32_be(x),
{
    out.push(#[verifier::truncate] ((x >> 24) as u8));
    out.push(#[verifier::truncate] ((x >> 16) as u8));
    out.push(#[verifier::truncate] ((x >> 8) as u8));
    out.push(#[verifier::truncate] (x as u8));
    assert(out@ =~= old(out)@ + u32_be(x));
}

fn put_u64(out: &mut Vec<u8>, x: u64)
    ensures
        final(out)@ == old(out)@ + u64_be(x),
{
    out.push(#[verifier::truncate] ((x >> 56) as u8));
    out.push(#[verifier::truncate] ((x >> 48) as u8));
    out.push(#[verifier::truncate] ((x >> 40) as u8));
    out.push(#[verifier::truncate] ((x >> 32) as u8));
    out.push(#[verifier::truncate] ((x >> 24) as u8));
    out.push(#[verifier::truncate] ((x >> 16) as u8));
    out.push(#[verifier::truncate] ((x >> 8) as u8));
    out.push(#[verifier::truncate] (x as u8));
    assert(out@ =~= old(out)@ + u64_be(x));
}

fn put_text(out: &mut Vec<u8>, text: &String)
    ensures
        final(out)@ == old(out)@ + text_bytes(text@),
        text_fits(text@),
{
    let body = text.as_str().as_bytes();
    put_u64(out, body.len() as u64);
    out.extend_from_slice(body);
    assert(out@ =~= old(out)@ + text_bytes(text@));
}

fn put_record(out: &mut Vec<u8>, record: &Record)
    ensures
        final(out)@ == old(out)@ + entry_bytes(record@),
        entry_fits(record@),
{
    match record {
        Record::Credentials { domain, username, password } => {
            put_u32(out, 0);
            put_text(out, domain);
            put_text(out, username);
            put_text(out, password);
        },
        Record::Command { name, command_line } => {
            put_u32(out, 1);
            put_text(out, name);
            put_text(out, command_line);
        },
    }
    assert(out@ =~= old(out)@ + entry_bytes(record@));
}

/// Encodes a vault. Decoding the result gives the vault back.
pub fn encode(entries: &Vec<Record>) -> (bytes: Vec<u8>)
    ensures
        bytes@ == vault_bytes(entries.deep_view()),
        fits(entries.deep_view()),
        decoding(bytes@) == Some(entries.deep_view()),
{
    let ghost es = entries.deep_view();
    let mut bytes: Vec<u8> = Vec::new();
    put_u64(&mut bytes, entries.len() as u64);
    let mut i: usize = 0;
    while i < entries.len()
        invariant
            i <= entries.len(),
            es == entries.deep_view(),
            bytes@ == u64_be(es.len() as u64) + entries_bytes(es.take(i as int)),
            forall|j: int| 0 <= j < i ==> entry_fits(#[trigger] es[j]),
        decreases entries.len() - i,
    {
        put_record(&mut bytes, &entries[i]);
        proof {
            assert(es.take(i + 1).drop_last() =~= es.take(i as int));
            assert(bytes@ =~= u64_be(es.len() as u64) + entries_bytes(es.take(i + 1)));
        }
        i += 1;
    }
    proof {
        assert(es.take(i as int) =~= es);
        lemma_decoding_inverts_encoding(es);
    }
    bytes
}

/// `String::from_utf8` of std. It gives a string exactly when the bytes are
/// valid UTF-8, and the string it gives is made of those bytes.
#[verifier::external_body]
fn string_from_utf8(bytes: Vec<u8>) -> (text: Option<String>)
    ensures
        text is Some <==> valid_utf8(bytes@),
        text matches Some(t) ==> encode_utf8(t@) == bytes@,
{
    String::from_utf8(bytes).ok()
}

fn take_u32(b: &[u8], at: usize) -> (found: Option<(u32, usize)>)
    ensures
        match found {
            Some((x, next)) => read_u32(b@, at as int) == Some((x, next as int)),
            None => read_u32(b@, at as int) is None,
        },
{
    if at > b.len() || b.len() - at < 4 {
        return None;
    }
    let x = (b[at] as u32) << 24 | (b[at + 1] as u32) << 16 | (b[at + 2] as u32) << 8 | (b[at
        + 3] as u32);
    Some((x, at + 4))
}

fn take_u64(b: &[u8], at: usize) -> (found: Option<(u64, usize)>)
    ensures
        match found {
            Some((x, next)) => read_u64(b@, at as int) == Some((x, next as int)),
            None => read_u64(b@, at as int) is None,
        },
{
    if at > b.len() || b.len() - at < 8 {
        return None;
    }
    let x = (b[at] as u64) << 56 | (b[at + 1] as u64) << 48 | (b[at + 2] as u64) << 40 | (b[at
        + 3] as u64) << 32 | (b[at + 4] as u64) << 24 | (b[at + 5] as u64) << 16 | (b[at
        + 6] as u64) << 8 | (b[at + 7] as u64);
    Some((x, at + 8))
}

fn take_text(b: &[u8], at: usize) -> (found: Option<(String, usize)>)
    ensures
        match found {
            Some((t, next)) => read_text(b@, at as int) == Some((t@, next as int)),
            None => read_text(b@, at as int) is None,
        },
{
    let (n, from) = match take_u64(b, at) {
        Some(found) => found,
        None => { return None; },
    };
    if n > (b.len() - from) as u64 {
        return None;
    }
    let to = from + n as usize;
    let body = vstd::slice::slice_to_vec(vstd::slice::slice_subrange(b, from, to));
    match string_from_utf8(body) {
        Some(text) => {
            proof {
                encode_utf8_decode_utf8(text@);
            }
            Some((text, to))
        },
        None => None,
    }
}

fn take_record(b: &[u8], at: usize) -> (found: Option<(Record, usize)>)
    ensures
        match found {
            Some((r, next)) => read_entry(b@, at as int) == Some((r@, next as int)),
            None => read_entry(b@, at as int) is None,
        },
{
    let (tag, at0) = match take_u32(b, at) {
        Some(found) => found,
        None => { return None; },
    };
    if tag > 1 {
        return None;
    }
    let (first, at1) = match take_text(b, at0) {
        Some(found) => found,
        None => { return None; },
    };
    let (second, at2) = match take_text(b, at1) {
        Some(found) => found,
        None => { return None; },
    };
    if tag == 1 {
        return Some((Record::Command { name: first, command_line: second }, at2));
    }
    match take_text(b, at2) {
        Some((third, at3)) => Some(
            (Record::Credentials { domain: first, username: second, password: third }, at3),
        ),
        None => None,
    }
}

proof fn lemma_read_entries_next(b: Seq<u8>, at: int, n: nat)
    ensures
        read_entries(b, at, n + 1) == match read_entries(b, at, n) {
            Some((es, p)) => match read_entry(b, p) {
                Some((e, q)) => Some((es.push(e), q)),
                None => None,
            },
            None => None,
        },
        read_entries(b, at, 0) == Some((Seq::<Entry>::empty(), at)),
{
    reveal_with_fuel(read_entries, 2);
}

proof fn lemma_read_entries_stops(b: Seq<u8>, at: int, n: nat, m: nat)
    requires
        read_entries(b, at, n) is None,
        n <= m,
    ensures
        read_entries(b, at, m) is None,
    decreases m,
{
    if n < m {
        lemma_read_entries_stops(b, at, n, (m - 1) as nat);
        lemma_read_entries_next(b, at, (m - 1) as nat);
    }
}

/// Decodes a vault: the one that the bytes encode, or nothing where they
/// encode none.
pub fn decode(bytes: &[u8]) -> (entries: Option<Vec<Record>>)
    ensures
        entries.deep_view() == decoding(bytes@),
{
    proof {
        lemma_decoding_is_reading(bytes@);
    }
    let (n, first) = match take_u64(bytes, 0) {
        Some(found) => found,
        None => { return None; },
    };
    let mut entries: Vec<Record> = Vec::new();
    let mut at: usize = first;
    let mut i: u64 = 0;
    proof {
        lemma_read_entries_next(bytes@, first as int, 0);
        assert(entries.deep_view() =~= Seq::<Entry>::empty());
    }
    while i < n
        invariant
            i <= n,
            decoding(bytes@) == read_vault(bytes@),
            read_u64(bytes@, 0) == Some((n, first as int)),
            read_entries(bytes@, first as int, i as nat) == Some((entries.deep_view(), at as int)),
        decreases n - i,
    {
        let ghost before = entries;
        proof {
            lemma_read_entries_next(bytes@, first as int, i as nat);
        }
        match take_record(bytes, at) {
            Some((record, next)) => {
                entries.push(record);
                at = next;
                proof {
                    lemma_deep_view_push(before, entries, record);
                }
            },
            None => {
                proof {
                    lemma_read_entries_stops(bytes@, first as int, (i + 1) as nat, n as nat);
                }
                return None;
            },
        }
        i += 1;
    }
    if at == bytes.len() {
        Some(entries)
    } else {
        None
    }
}

} // verus!
