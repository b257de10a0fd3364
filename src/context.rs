use vstd::prelude::*;
use vstd::string::StringExecFns;

use std::sync::Arc;

use crate::packet::PacketHeader;

verus! {

/// Relies on `Arc::clone`: the new pointer shares the allocation, so it holds the same value.
#[verifier::external_body]
fn share(meta: &Arc<TokenColMetaData>) -> (r: Arc<TokenColMetaData>)
    ensures
        r == *meta,
{
    Arc::clone(meta)
}

/// The protocol revision a connection speaks.
#[derive(Clone, Copy, Debug, PartialEq, Eq, Structural)]
pub enum FeatureLevel {
    SqlServerV7,
    SqlServer2000,
    SqlServer2000Sp1,
    SqlServer2005,
    SqlServer2008,
    SqlServer2008R2,
    SqlServerN,
}

/// Whether the connection is wrapped in a secure channel.
#[derive(Clone, Copy, Debug, PartialEq, Eq, Structural)]
pub enum EncryptionLevel {
    /// Encrypt the login exchange only.
    Off,
    /// Encrypt everything if possible.
    On,
    /// Encrypt nothing.
    NotSupported,
    /// Encrypt everything and fail if that is not possible.
    Required,
}

/// The wire code of each encryption level.
pub open spec fn spec_encryption_code(e: EncryptionLevel) -> u8 {
    match e {
        EncryptionLevel::Off => 0,
        EncryptionLevel::On => 1,
        EncryptionLevel::NotSupported => 2,
        EncryptionLevel::Required => 3,
    }
}

impl EncryptionLevel {
    pub fn code(self) -> (r: u8)
        ensures
            r == spec_encryption_code(self),
    {
        match self {
            EncryptionLevel::Off => 0,
            EncryptionLevel::On => 1,
            EncryptionLevel::NotSupported => 2,
            EncryptionLevel::Required => 3,
        }
    }

    /// The level with the given wire code, if there is one.
    pub fn from_code(c: u8) -> (r: Option<EncryptionLevel>)
        ensures
            match r {
                Some(e) => spec_encryption_code(e) == c,
                None => c > 3,
            },
    {
        match c {
            0 => Some(EncryptionLevel::Off),
            1 => Some(EncryptionLevel::On),
            2 => Some(EncryptionLevel::NotSupported),
            3 => Some(EncryptionLevel::Required),
            _ => None,
        }
    }
}

/// One column of a result set.
#[derive(Debug)]
pub struct MetaDataColumn {
    pub col_name: String,
    pub type_code: u8,
}

/// The column shape of a result set, needed to decode its rows.
#[derive(Debug)]
pub struct TokenColMetaData {
    pub columns: Vec<MetaDataColumn>,
}

impl TokenColMetaData {
    pub fn new(columns: Vec<MetaDataColumn>) -> (r: TokenColMetaData)
        ensures
            r.columns@ == columns@,
    {
        TokenColMetaData { columns }
    }

    pub fn column_count(&self) -> (r: usize)
        ensures
            r == self.columns@.len(),
    {
        self.columns.len()
    }
}

/// What a connection remembers between packets.
pub struct ContextView {
    pub version: FeatureLevel,
    pub packet_size: u32,
    pub packet_id: u8,
    pub transaction_id: u64,
    pub last_meta: Option<Arc<TokenColMetaData>>,
    pub spn: Option<Seq<char>>,
}

/// Per-connection state: protocol revision, negotiated packet size, next packet id,
/// active transaction and the metadata of the latest result set.
#[derive(Debug)]
pub struct Context {
    version: FeatureLevel,
    packet_size: u32,
    packet_id: u8,
    transaction_id: u64,
    last_meta: Option<Arc<TokenColMetaData>>,
    spn: Option<String>,
}

impl View for Context {
    type V = ContextView;

    closed spec fn view(&self) -> ContextView {
        ContextView {
            version: self.version,
            packet_size: self.packet_size,
            packet_id: self.packet_id,
            transaction_id: self.transaction_id,
            last_meta: self.last_meta,
            spn: match self.spn {
                Some(s) => Some(s@),
                None => None,
            },
        }
    }
}

/// Installing new metadata replaces what the context reports without touching a handle on the
/// previous metadata: the held snapshot keeps its columns, and so its column count.
pub proof fn lemma_held_meta_survives(
    before: ContextView,
    held: Arc<TokenColMetaData>,
    meta: Arc<TokenColMetaData>,
)
    requires
        before.last_meta == Some(held),
    ensures
        (ContextView { last_meta: Some(meta), ..before }).last_meta == Some(meta),
        held.columns@ == before.last_meta->Some_0.columns@,
        held.columns@.len() == before.last_meta->Some_0.columns@.len(),
{
}

/// The packet id that `k` header allocations starting from `id` leave behind, one step at a time.
pub open spec fn ids_after(id: u8, k: nat) -> u8
    decreases k,
{
    if k == 0 {
        id
    } else {
        ids_after(((id + 1) % 256) as u8, (k - 1) as nat)
    }
}

/// Packet ids are handed out in sequence modulo 256: after `k` allocations from `start` the
/// next id is `(start + k) % 256`, so within one cycle of 256 allocations no id repeats and
/// none is skipped.
pub proof fn lemma_packet_ids_sequential(start: u8, i: nat, j: nat)
    requires
        i < j < 256,
    ensures
        ids_after(start, i) == (start + i) % 256,
        ids_after(start, j) == (start + j) % 256,
        ids_after(start, i) != ids_after(start, j),
        ids_after(start, i + 1) == (ids_after(start, i) + 1) % 256,
{
    lemma_ids_after(start, i);
    lemma_ids_after(start, j);
    lemma_ids_after(start, i + 1);
    let a = start as nat + i;
    let b = start as nat + j;
    assert(a % 256 != b % 256) by (nonlinear_arith)
        requires
            a < b,
            b - a < 256,
    ;
    assert((a + 1) % 256 == (a % 256 + 1) % 256) by (nonlinear_arith);
}

proof fn lemma_ids_after(id: u8, k: nat)
    ensures
        ids_after(id, k) == (id + k) % 256,
    decreases k,
{
    if k > 0 {
        let next = ((id + 1) % 256) as u8;
        lemma_ids_after(next, (k - 1) as nat);
        assert((next + (k - 1)) % 256 == (id + k) % 256) by (nonlinear_arith)
            requires
                next == (id + 1) % 256,
                k >= 1,
        ;
    }
}

/// The character of a decimal digit.
pub open spec fn digit_char(d: nat) -> char {
    if d == 0 { '0' }
    else if d == 1 { '1' }
    else if d == 2 { '2' }
    else if d == 3 { '3' }
    else if d == 4 { '4' }
    else if d == 5 { '5' }
    else if d == 6 { '6' }
    else if d == 7 { '7' }
    else if d == 8 { '8' }
    else { '9' }
}

/// `n` written in decimal, without leading zeros.
pub open spec fn decimal(n: nat) -> Seq<char>
    decreases n,
{
    if n < 10 {
        seq![digit_char(n)]
    } else {
        decimal(n / 10).push(digit_char(n % 10))
    }
}

/// The service principal name for a host and port: `MSSQLSvc/<host>:<port>`.
pub open spec fn spec_spn(host: Seq<char>, port: u16) -> Seq<char> {
    seq!['M', 'S', 'S', 'Q', 'L', 'S', 'v', 'c', '/'] + host + seq![':'] + decimal(port as nat)
}

fn digit_str(d: u16) -> (r: &'static str)
    requires
        d < 10,
    ensures
        r@ == seq![digit_char(d as nat)],
{
    proof {
        reveal_strlit("0");
        reveal_strlit("1");
        reveal_strlit("2");
        reveal_strlit("3");
        reveal_strlit("4");
        reveal_strlit("5");
        reveal_strlit("6");
        reveal_strlit("7");
        reveal_strlit("8");
        reveal_strlit("9");
    }
    match d {
        0 => "0",
        1 => "1",
        2 => "2",
        3 => "3",
        4 => "4",
        5 => "5",
        6 => "6",
        7 => "7",
        8 => "8",
        _ => "9",
    }
}

fn append_decimal(s: &mut String, n: u16)
    ensures
        final(s)@ == old(s)@ + decimal(n as nat),
    decreases n,
{
    if n >= 10 {
        append_decimal(s, n / 10);
    }
    s.append(digit_str(n % 10));
    proof {
        assert(s@ =~= old(s)@ + decimal(n as nat));
    }
}

impl Context {
    /// A fresh context: newest revision, packet size 4096, packet id 0, no transaction, no metadata.
    pub fn new() -> (r: Context)
        ensures
            r@ == (ContextView {
                version: FeatureLevel::SqlServerN,
                packet_size: 4096,
                packet_id: 0,
                transaction_id: 0,
                last_meta: None,
                spn: None,
            }),
    {
        Context {
            version: FeatureLevel::SqlServerN,
            packet_size: 4096,
            packet_id: 0,
            transaction_id: 0,
            last_meta: None,
            spn: None,
        }
    }

    /// A header of `length` bytes carrying the next packet id, which advances by one modulo 256.
    pub fn new_header(&mut self, length: usize) -> (r: PacketHeader)
        requires
            length <= u16::MAX,
        ensures
            r == PacketHeader::spec_new(length, old(self)@.packet_id),
            final(self)@ == (ContextView {
                packet_id: ((old(self)@.packet_id + 1) % 256) as u8,
                ..old(self)@
            }),
    {
        let id = self.packet_id;
        self.packet_id = if id == 255 { 0 } else { id + 1 };
        PacketHeader::new(length, id)
    }

    /// Installs the metadata of a new result set; holders of the previous one keep it.
    pub fn set_last_meta(&mut self, meta: Arc<TokenColMetaData>)
        ensures
            final(self)@ == (ContextView { last_meta: Some(meta), ..old(self)@ }),
    {
        self.last_meta = Some(meta);
    }

    /// A shared handle on the latest metadata, if any was installed.
    pub fn last_meta(&self) -> (r: Option<Arc<TokenColMetaData>>)
        ensures
            r == self@.last_meta,
    {
        match &self.last_meta {
            Some(m) => Some(share(m)),
            None => None,
        }
    }

    pub fn packet_size(&self) -> (r: u32)
        ensures
            r == self@.packet_size,
    {
        self.packet_size
    }

    pub fn set_packet_size(&mut self, new_size: u32)
        ensures
            final(self)@ == (ContextView { packet_size: new_size, ..old(self)@ }),
    {
        self.packet_size = new_size;
    }

    pub fn transaction_id(&self) -> (r: u64)
        ensures
            r == self@.transaction_id,
    {
        self.transaction_id
    }

    pub fn set_transaction_id(&mut self, id: u64)
        ensures
            final(self)@ == (ContextView { transaction_id: id, ..old(self)@ }),
    {
        self.transaction_id = id;
    }

    /// Records the service principal name `MSSQLSvc/<host>:<port>`.
    pub fn set_spn(&mut self, host: &str, port: u16)
        ensures
            final(self)@ == (ContextView { spn: Some(spec_spn(host@, port)), ..old(self)@ }),
    {
        let mut s = String::from_str("MSSQLSvc/");
        s.append(host);
        s.append(":");
        append_decimal(&mut s, port);
        proof {
            reveal_strlit("MSSQLSvc/");
            reveal_strlit(":");
            assert(s@ =~= spec_spn(host@, port));
        }
        self.spn = Some(s);
    }

    /// The recorded service principal name, or the empty string.
    pub fn spn(&self) -> (r: &str)
        ensures
            r@ == match self@.spn {
                Some(s) => s,
                None => Seq::<char>::empty(),
            },
    {
        proof {
            reveal_strlit("");
        }
        match &self.spn {
            Some(s) => s.as_str(),
            None => "",
        }
    }
}

} // verus!
