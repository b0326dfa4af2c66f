//! Messages that nodes exchange on the control channel.

use bytes::Bytes;
use prost::DecodeError;
use vstd::prelude::*;
use crate::buffer;
use crate::buffer::MAX_BUFFERED;
use crate::protobuf;
use crate::protobuf::fields;
use crate::protobuf::fields::{Field, FieldView, Kind, Message};

verus! {

/// The introduction that opens a link.
#[derive(Debug, Eq, PartialEq)]
pub struct LinkHello {
    pub node_id: Bytes,
    pub protocol_version: u32,
}

/// What an introduction says.
#[verifier::ext_equal]
pub struct HelloView {
    pub node_id: Seq<u8>,
    pub protocol_version: u32,
}

impl View for LinkHello {
    type V = HelloView;

    open spec fn view(&self) -> HelloView {
        HelloView {
            node_id: buffer::octets(self.node_id),
            protocol_version: self.protocol_version,
        }
    }
}

/// The fields of an introduction.
pub open spec fn hello_fields(hello: HelloView) -> Seq<FieldView> {
    fields::bytes(1, hello.node_id) + fields::number(2, hello.protocol_version as u64)
}

/// The bytes of an introduction.
pub open spec fn hello_bytes(hello: HelloView) -> Seq<u8> {
    fields::fields_bytes(hello_fields(hello))
}

/// The introduction that bytes are.
pub open spec fn read_hello(bytes: Seq<u8>) -> Option<HelloView> {
    match fields::parse_fields::<LinkHello>(false, bytes) {
        None => None,
        Some(list) => Some(
            HelloView {
                node_id: fields::bytes_of(list, 1, Seq::empty()),
                protocol_version: fields::number_of(list, 2, 0) as u32,
            },
        ),
    }
}

impl Message for LinkHello {
    open spec fn holds(tag: u32) -> Option<Kind> {
        if tag == 1 {
            Some(Kind::Bytes)
        } else if tag == 2 {
            Some(Kind::Uint32)
        } else {
            None
        }
    }

    fn kind(tag: u32) -> (kind: Option<Kind>) {
        match tag {
            1 => Some(Kind::Bytes),
            2 => Some(Kind::Uint32),
            _ => None,
        }
    }

    open spec fn named(tag: u32) -> (Seq<char>, Seq<char>) {
        if tag == 1 {
            ("LinkHello"@, "node_id"@)
        } else {
            ("LinkHello"@, "protocol_version"@)
        }
    }

    fn names(tag: u32) -> (names: (&'static str, &'static str)) {
        match tag {
            1 => ("LinkHello", "node_id"),
            _ => ("LinkHello", "protocol_version"),
        }
    }
}

impl LinkHello {
    /// Writes the introduction.
    pub fn encode_to_bytes(&self) -> (encoded: Bytes)
        requires
            hello_bytes(self@).len() <= MAX_BUFFERED,
        ensures
            buffer::octets(encoded) == hello_bytes(self@),
    {
        let mut list: Vec<Field> = Vec::new();
        assert(fields::views(list@) =~= Seq::<FieldView>::empty());
        fields::add_bytes(&mut list, 1, &self.node_id);
        fields::add_number(&mut list, 2, self.protocol_version as u64);
        assert(fields::views(list@) =~= hello_fields(self@));
        fields::write_fields(&list)
    }

    /// Reads an introduction.
    pub fn decode(source: Bytes) -> (hello: Result<Self, DecodeError>)
        ensures
            match hello {
                Ok(h) => read_hello(buffer::octets(source)) == Some(h@),
                Err(_) => read_hello(buffer::octets(source)) is None,
            },
    {
        let list = match fields::read_fields::<LinkHello>(false, source) {
            Ok(list) => list,
            Err(error) => {
                return Err(error);
            },
        };
        Ok(
            LinkHello {
                node_id: fields::find_bytes(&list, 1),
                protocol_version: fields::find_number(&list, 2) as u32,
            },
        )
    }
}

/// Reading gives back what was written.
pub proof fn written_hellos_are_read_back(hello: HelloView)
    requires
        hello.node_id.len() <= u64::MAX,
    ensures
        read_hello(hello_bytes(hello)) == Some(hello),
{
    let a = fields::bytes(1, hello.node_id);
    let b = fields::number(2, hello.protocol_version as u64);
    fields::written_fields_are_read_back::<LinkHello>(false, a + b);
    fields::values_add(a, b, 1, 0, Seq::empty());
    fields::values_add(a, b, 2, 0, Seq::empty());
    fields::values_one(1, 0, hello.node_id, 1, 0, Seq::empty());
    fields::values_one(1, 0, hello.node_id, 2, 0, Seq::empty());
    fields::values_one(2, hello.protocol_version as u64, Seq::empty(), 1, 0, hello.node_id);
    fields::values_one(2, hello.protocol_version as u64, Seq::empty(), 2, 0, Seq::empty());
    assert(fields::bytes_of(a, 1, Seq::empty()) =~= hello.node_id);
    assert(read_hello(hello_bytes(hello))->0 =~= hello);
}

/// One edge of an announcement.
#[derive(Debug, Eq, PartialEq)]
pub struct Adjacency {
    pub peer: Bytes,
    pub cost: u32,
}

/// What an edge says.
#[verifier::ext_equal]
pub struct AdjacencyView {
    pub peer: Seq<u8>,
    pub cost: u32,
}

impl View for Adjacency {
    type V = AdjacencyView;

    open spec fn view(&self) -> AdjacencyView {
        AdjacencyView { peer: buffer::octets(self.peer), cost: self.cost }
    }
}

/// The fields of an edge.
pub open spec fn adjacency_fields(adjacency: AdjacencyView) -> Seq<FieldView> {
    fields::bytes(1, adjacency.peer) + fields::number(2, adjacency.cost as u64)
}

/// The bytes of an edge.
pub open spec fn adjacency_bytes(adjacency: AdjacencyView) -> Seq<u8> {
    fields::fields_bytes(adjacency_fields(adjacency))
}

/// The edge that bytes are, on their own or as part of an announcement.
pub open spec fn read_adjacency(inner: bool, bytes: Seq<u8>) -> Option<AdjacencyView> {
    match fields::parse_fields::<Adjacency>(inner, bytes) {
        None => None,
        Some(list) => Some(
            AdjacencyView {
                peer: fields::bytes_of(list, 1, Seq::empty()),
                cost: fields::number_of(list, 2, 0) as u32,
            },
        ),
    }
}

impl Message for Adjacency {
    open spec fn holds(tag: u32) -> Option<Kind> {
        if tag == 1 {
            Some(Kind::Bytes)
        } else if tag == 2 {
            Some(Kind::Uint32)
        } else {
            None
        }
    }

    fn kind(tag: u32) -> (kind: Option<Kind>) {
        match tag {
            1 => Some(Kind::Bytes),
            2 => Some(Kind::Uint32),
            _ => None,
        }
    }

    open spec fn named(tag: u32) -> (Seq<char>, Seq<char>) {
        if tag == 1 {
            ("Adjacency"@, "peer"@)
        } else {
            ("Adjacency"@, "cost"@)
        }
    }

    fn names(tag: u32) -> (names: (&'static str, &'static str)) {
        match tag {
            1 => ("Adjacency", "peer"),
            _ => ("Adjacency", "cost"),
        }
    }
}

impl Adjacency {
    /// Writes the edge.
    pub fn encode_to_bytes(&self) -> (encoded: Bytes)
        requires
            adjacency_bytes(self@).len() <= MAX_BUFFERED,
        ensures
            buffer::octets(encoded) == adjacency_bytes(self@),
    {
        let mut list: Vec<Field> = Vec::new();
        assert(fields::views(list@) =~= Seq::<FieldView>::empty());
        fields::add_bytes(&mut list, 1, &self.peer);
        fields::add_number(&mut list, 2, self.cost as u64);
        assert(fields::views(list@) =~= adjacency_fields(self@));
        fields::write_fields(&list)
    }

    /// Reads an edge.
    pub fn decode(source: Bytes) -> (adjacency: Result<Self, DecodeError>)
        ensures
            match adjacency {
                Ok(a) => read_adjacency(false, buffer::octets(source)) == Some(a@),
                Err(_) => read_adjacency(false, buffer::octets(source)) is None,
            },
    {
        Self::read(false, source)
    }

    /// Reads an edge, on its own or as part of an announcement.
    fn read(inner: bool, source: Bytes) -> (adjacency: Result<Self, DecodeError>)
        ensures
            match adjacency {
                Ok(a) => read_adjacency(inner, buffer::octets(source)) == Some(a@),
                Err(_) => read_adjacency(inner, buffer::octets(source)) is None,
            },
    {
        let list = match fields::read_fields::<Adjacency>(inner, source) {
            Ok(list) => list,
            Err(error) => {
                return Err(error);
            },
        };
        Ok(
            Adjacency {
                peer: fields::find_bytes(&list, 1),
                cost: fields::find_number(&list, 2) as u32,
            },
        )
    }
}

/// Reading gives back what was written.
pub proof fn written_adjacencies_are_read_back(inner: bool, adjacency: AdjacencyView)
    requires
        adjacency.peer.len() <= u64::MAX,
    ensures
        read_adjacency(inner, adjacency_bytes(adjacency)) == Some(adjacency),
{
    let a = fields::bytes(1, adjacency.peer);
    let b = fields::number(2, adjacency.cost as u64);
    fields::written_fields_are_read_back::<Adjacency>(inner, a + b);
    fields::values_add(a, b, 1, 0, Seq::empty());
    fields::values_add(a, b, 2, 0, Seq::empty());
    fields::values_one(1, 0, adjacency.peer, 1, 0, Seq::empty());
    fields::values_one(1, 0, adjacency.peer, 2, 0, Seq::empty());
    fields::values_one(2, adjacency.cost as u64, Seq::empty(), 1, 0, adjacency.peer);
    fields::values_one(2, adjacency.cost as u64, Seq::empty(), 2, 0, Seq::empty());
    assert(fields::bytes_of(a, 1, Seq::empty()) =~= adjacency.peer);
    assert(read_adjacency(inner, adjacency_bytes(adjacency))->0 =~= adjacency);
}

/// An edge takes little more than its peer.
pub proof fn adjacency_len_is_bounded(adjacency: AdjacencyView)
    requires
        adjacency.peer.len() <= u64::MAX,
    ensures
        adjacency_bytes(adjacency).len() <= 40 + adjacency.peer.len(),
{
    let a = fields::bytes(1, adjacency.peer);
    let b = fields::number(2, adjacency.cost as u64);
    fields::fields_bytes_add(a, b);
    fields::lens_are_bounded(1, 0, adjacency.peer, Seq::empty(), 0);
    fields::lens_are_bounded(2, adjacency.cost as u64, Seq::empty(), Seq::empty(), 0);
}

/// A link-state announcement.
#[derive(Debug, Eq, PartialEq)]
pub struct Lsa {
    pub origin: Bytes,
    pub seq: u64,
    pub ttl_sec: u32,
    pub adjacencies: Vec<Adjacency>,
    pub epoch: u32,
}

/// What an announcement says.
#[verifier::ext_equal]
pub struct LsaView {
    pub origin: Seq<u8>,
    pub seq: u64,
    pub ttl_sec: u32,
    pub adjacencies: Seq<AdjacencyView>,
    pub epoch: u32,
}

/// What each of several edges says.
pub open spec fn adjacency_views(list: Seq<Adjacency>) -> Seq<AdjacencyView> {
    list.map_values(|adjacency: Adjacency| adjacency@)
}

impl View for Lsa {
    type V = LsaView;

    open spec fn view(&self) -> LsaView {
        LsaView {
            origin: buffer::octets(self.origin),
            seq: self.seq,
            ttl_sec: self.ttl_sec,
            adjacencies: adjacency_views(self.adjacencies@),
            epoch: self.epoch,
        }
    }
}

/// The bytes of each of several edges.
pub open spec fn each_adjacency_bytes(list: Seq<AdjacencyView>) -> Seq<Seq<u8>> {
    list.map_values(|adjacency: AdjacencyView| adjacency_bytes(adjacency))
}

/// The fields of an announcement.
pub open spec fn lsa_fields(lsa: LsaView) -> Seq<FieldView> {
    fields::bytes(1, lsa.origin) + fields::number(2, lsa.seq) + fields::number(
        4,
        lsa.ttl_sec as u64,
    ) + fields::repeated(10, each_adjacency_bytes(lsa.adjacencies)) + fields::number(
        20,
        lsa.epoch as u64,
    )
}

/// The bytes of an announcement.
pub open spec fn lsa_bytes(lsa: LsaView) -> Seq<u8> {
    fields::fields_bytes(lsa_fields(lsa))
}

/// The edges that parts of a message are.
pub open spec fn read_adjacencies(parts: Seq<Seq<u8>>) -> Option<Seq<AdjacencyView>> {
    fields::read_each(parts, |part: Seq<u8>| read_adjacency(true, part))
}

/// The announcement that bytes are.
pub open spec fn read_lsa(bytes: Seq<u8>) -> Option<LsaView> {
    match fields::parse_fields::<Lsa>(false, bytes) {
        None => None,
        Some(list) => match read_adjacencies(fields::all_bytes_of(list, 10)) {
            None => None,
            Some(adjacencies) => Some(
                LsaView {
                    origin: fields::bytes_of(list, 1, Seq::empty()),
                    seq: fields::number_of(list, 2, 0),
                    ttl_sec: fields::number_of(list, 4, 0) as u32,
                    adjacencies,
                    epoch: fields::number_of(list, 20, 0) as u32,
                },
            ),
        },
    }
}

impl Message for Lsa {
    open spec fn holds(tag: u32) -> Option<Kind> {
        if tag == 1 || tag == 10 {
            Some(Kind::Bytes)
        } else if tag == 2 {
            Some(Kind::Uint64)
        } else if tag == 4 || tag == 20 {
            Some(Kind::Uint32)
        } else {
            None
        }
    }

    fn kind(tag: u32) -> (kind: Option<Kind>) {
        match tag {
            1 => Some(Kind::Bytes),
            2 => Some(Kind::Uint64),
            4 => Some(Kind::Uint32),
            10 => Some(Kind::Bytes),
            20 => Some(Kind::Uint32),
            _ => None,
        }
    }

    open spec fn named(tag: u32) -> (Seq<char>, Seq<char>) {
        if tag == 1 {
            ("Lsa"@, "origin"@)
        } else if tag == 2 {
            ("Lsa"@, "seq"@)
        } else if tag == 4 {
            ("Lsa"@, "ttl_sec"@)
        } else if tag == 10 {
            ("Lsa"@, "adjacencies"@)
        } else {
            ("Lsa"@, "epoch"@)
        }
    }

    fn names(tag: u32) -> (names: (&'static str, &'static str)) {
        match tag {
            1 => ("Lsa", "origin"),
            2 => ("Lsa", "seq"),
            4 => ("Lsa", "ttl_sec"),
            10 => ("Lsa", "adjacencies"),
            _ => ("Lsa", "epoch"),
        }
    }
}

impl Lsa {
    /// Writes the announcement.
    pub fn encode_to_bytes(&self) -> (encoded: Bytes)
        requires
            lsa_bytes(self@).len() <= MAX_BUFFERED,
        ensures
            buffer::octets(encoded) == lsa_bytes(self@),
    {
        let ghost parts = each_adjacency_bytes(self@.adjacencies);
        let mut edges: Vec<Bytes> = Vec::new();
        let mut i: usize = 0;
        while i < self.adjacencies.len()
            invariant
                i <= self.adjacencies@.len(),
                parts == each_adjacency_bytes(self@.adjacencies),
                lsa_bytes(self@).len() <= MAX_BUFFERED,
                fields::contents(edges@) == parts.take(i as int),
            decreases self.adjacencies@.len() - i,
        {
            proof {
                parts_fit(self@, i as int);
            }
            let edge = self.adjacencies[i].encode_to_bytes();
            proof {
                fields::contents_push(edges@, edge);
                assert(parts.take(i + 1) =~= parts.take(i as int).push(parts[i as int]));
            }
            edges.push(edge);
            assert(fields::contents(edges@) =~= parts.take(i + 1));
            i = i + 1;
        }
        assert(fields::contents(edges@) =~= parts);
        let mut list: Vec<Field> = Vec::new();
        assert(fields::views(list@) =~= Seq::<FieldView>::empty());
        fields::add_bytes(&mut list, 1, &self.origin);
        fields::add_number(&mut list, 2, self.seq);
        fields::add_number(&mut list, 4, self.ttl_sec as u64);
        fields::add_repeated(&mut list, 10, edges);
        fields::add_number(&mut list, 20, self.epoch as u64);
        assert(fields::views(list@) =~= lsa_fields(self@));
        fields::write_fields(&list)
    }

    /// Reads an announcement.
    pub fn decode(source: Bytes) -> (lsa: Result<Self, DecodeError>)
        ensures
            match lsa {
                Ok(l) => read_lsa(buffer::octets(source)) == Some(l@),
                Err(_) => read_lsa(buffer::octets(source)) is None,
            },
    {
        let list = match fields::read_fields::<Lsa>(false, source) {
            Ok(list) => list,
            Err(error) => {
                return Err(error);
            },
        };
        let parts = fields::find_all_bytes(&list, 10);
        let ghost all = fields::contents(parts@);
        let mut adjacencies: Vec<Adjacency> = Vec::new();
        let mut i: usize = 0;
        while i < parts.len()
            invariant
                i <= parts@.len(),
                all == fields::contents(parts@),
                fields::parse_fields::<Lsa>(false, buffer::octets(source)) == Some(fields::views(list@)),
                all == fields::all_bytes_of(fields::views(list@), 10),
                adjacencies@.len() == i,
                forall|k: int|
                    0 <= k < i ==> read_adjacency(true, #[trigger] all[k]) == Some(adjacencies@[k]@),
            decreases parts@.len() - i,
        {
            assert(all[i as int] == buffer::octets(parts@[i as int]));
            match Adjacency::read(true, buffer::share(&parts[i])) {
                Ok(adjacency) => {
                    adjacencies.push(adjacency);
                },
                Err(error) => {
                    let ghost read = |part: Seq<u8>| read_adjacency(true, part);
                    assert(!(read(all[i as int]) is Some));
                    return Err(protobuf::located(error, "Lsa", "adjacencies"));
                },
            }
            i = i + 1;
        }
        let lsa = Lsa {
            origin: fields::find_bytes(&list, 1),
            seq: fields::find_number(&list, 2),
            ttl_sec: fields::find_number(&list, 4) as u32,
            adjacencies,
            epoch: fields::find_number(&list, 20) as u32,
        };
        assert(read_adjacencies(all)->0 =~= adjacency_views(lsa.adjacencies@));
        Ok(lsa)
    }
}

/// Each edge takes no more than the announcement.
proof fn parts_fit(lsa: LsaView, i: int)
    requires
        0 <= i < lsa.adjacencies.len(),
    ensures
        adjacency_bytes(lsa.adjacencies[i]).len() <= lsa_bytes(lsa).len(),
{
    let parts = each_adjacency_bytes(lsa.adjacencies);
    let a = fields::bytes(1, lsa.origin) + fields::number(2, lsa.seq) + fields::number(
        4,
        lsa.ttl_sec as u64,
    );
    let b = fields::repeated(10, parts);
    let c = fields::number(20, lsa.epoch as u64);
    fields::fields_bytes_add(a + b, c);
    fields::fields_bytes_add(a, b);
    fields::part_fits(10, parts, i);
}

/// Reading gives back what was written.
pub proof fn written_lsas_are_read_back(lsa: LsaView)
    requires
        lsa.origin.len() <= u64::MAX,
        forall|i: int|
            0 <= i < lsa.adjacencies.len() ==> (#[trigger] lsa.adjacencies[i]).peer.len() + 40
                <= u64::MAX,
    ensures
        read_lsa(lsa_bytes(lsa)) == Some(lsa),
{
    let parts = each_adjacency_bytes(lsa.adjacencies);
    let a = fields::bytes(1, lsa.origin);
    let b = fields::number(2, lsa.seq);
    let c = fields::number(4, lsa.ttl_sec as u64);
    let d = fields::repeated(10, parts);
    let e = fields::number(20, lsa.epoch as u64);
    let all = a + b + c + d + e;
    assert forall|i: int| 0 <= i < parts.len() implies (#[trigger] parts[i]).len() <= u64::MAX
        && read_adjacency(true, parts[i]) == Some(lsa.adjacencies[i]) by {
        adjacency_len_is_bounded(lsa.adjacencies[i]);
        written_adjacencies_are_read_back(true, lsa.adjacencies[i]);
    }
    assert forall|i: int| 0 <= i < all.len() implies fields::suits::<Lsa>(#[trigger] all[i]) by {
        if i < a.len() {
        } else if i < (a + b).len() {
        } else if i < (a + b + c).len() {
        } else if i < (a + b + c + d).len() {
            assert(all[i] == d[i - (a + b + c).len()]);
        }
    }
    fields::written_fields_are_read_back::<Lsa>(false, all);
    lsa_values(lsa, parts, 1);
    lsa_values(lsa, parts, 2);
    lsa_values(lsa, parts, 4);
    lsa_values(lsa, parts, 10);
    lsa_values(lsa, parts, 20);
    assert(fields::bytes_of(all, 1, Seq::empty()) =~= lsa.origin);
    assert(read_adjacencies(parts)->0 =~= lsa.adjacencies);
    assert(read_lsa(lsa_bytes(lsa))->0 =~= lsa);
}

/// What the fields of an announcement hold.
proof fn lsa_values(lsa: LsaView, parts: Seq<Seq<u8>>, tag: u32)
    requires
        tag == 1 || tag == 2 || tag == 4 || tag == 10 || tag == 20,
    ensures
        ({
            let all = fields::bytes(1, lsa.origin) + fields::number(2, lsa.seq) + fields::number(
                4,
                lsa.ttl_sec as u64,
            ) + fields::repeated(10, parts) + fields::number(20, lsa.epoch as u64);
            &&& tag == 1 ==> fields::bytes_of(all, tag, Seq::empty()) == lsa.origin
            &&& tag == 2 ==> fields::number_of(all, tag, 0) == lsa.seq
            &&& tag == 4 ==> fields::number_of(all, tag, 0) == lsa.ttl_sec
            &&& tag == 10 ==> fields::all_bytes_of(all, tag) == parts
            &&& tag == 20 ==> fields::number_of(all, tag, 0) == lsa.epoch
        }),
{
    let none = Seq::<u8>::empty();
    let a = fields::bytes(1, lsa.origin);
    let b = fields::number(2, lsa.seq);
    let c = fields::number(4, lsa.ttl_sec as u64);
    let d = fields::repeated(10, parts);
    let e = fields::number(20, lsa.epoch as u64);
    let s = fields::bytes_of(a, tag, none);
    let n0 = 0u64;
    let n1 = fields::number_of(b, tag, n0);
    let n2 = fields::number_of(c, tag, n1);
    fields::values_add(a + b + c + d, e, tag, 0, none);
    fields::values_add(a + b + c, d, tag, 0, none);
    fields::values_add(a + b, c, tag, 0, none);
    fields::values_add(a, b, tag, 0, none);
    fields::values_one(1, 0, lsa.origin, tag, n0, none);
    fields::values_one(2, lsa.seq, none, tag, n0, s);
    fields::values_one(4, lsa.ttl_sec as u64, none, tag, n1, s);
    fields::values_repeated(10, parts, tag, n2, s);
    fields::values_one(20, lsa.epoch as u64, none, tag, n2, s);
    if tag == 1 {
        assert(s =~= lsa.origin);
    }
    if tag == 10 {
        assert(fields::all_bytes_of(a + b + c + d + e, tag) =~= parts);
    }
}

/// An announcement takes little more than its identities.
pub proof fn lsa_len_is_bounded(lsa: LsaView, each: nat)
    requires
        lsa.origin.len() <= u64::MAX,
        each + 40 <= u64::MAX,
        forall|i: int|
            0 <= i < lsa.adjacencies.len() ==> (#[trigger] lsa.adjacencies[i]).peer.len() <= each,
    ensures
        lsa_bytes(lsa).len() <= 80 + lsa.origin.len() + lsa.adjacencies.len() * (60 + each),
{
    let none = Seq::<Seq<u8>>::empty();
    let parts = each_adjacency_bytes(lsa.adjacencies);
    let a = fields::bytes(1, lsa.origin);
    let b = fields::number(2, lsa.seq);
    let c = fields::number(4, lsa.ttl_sec as u64);
    let d = fields::repeated(10, parts);
    let e = fields::number(20, lsa.epoch as u64);
    fields::fields_bytes_add(a + b + c + d, e);
    fields::fields_bytes_add(a + b + c, d);
    fields::fields_bytes_add(a + b, c);
    fields::fields_bytes_add(a, b);
    assert forall|i: int| 0 <= i < parts.len() implies (#[trigger] parts[i]).len() <= each + 40 by {
        adjacency_len_is_bounded(lsa.adjacencies[i]);
    }
    fields::lens_are_bounded(1, 0, lsa.origin, none, 0);
    fields::lens_are_bounded(2, lsa.seq, Seq::empty(), none, 0);
    fields::lens_are_bounded(4, lsa.ttl_sec as u64, Seq::empty(), none, 0);
    fields::lens_are_bounded(10, 0, Seq::empty(), parts, each + 40);
    fields::lens_are_bounded(20, lsa.epoch as u64, Seq::empty(), none, 0);
}

/// An announcement as its origin wrote it, with a signature.
#[derive(Debug, Eq, PartialEq)]
pub struct SignedLsa {
    pub lsa_bytes: Bytes,
    pub signature: Bytes,
}

/// What a signed announcement says.
#[verifier::ext_equal]
pub struct SignedView {
    pub lsa_bytes: Seq<u8>,
    pub signature: Seq<u8>,
}

impl View for SignedLsa {
    type V = SignedView;

    open spec fn view(&self) -> SignedView {
        SignedView {
            lsa_bytes: buffer::octets(self.lsa_bytes),
            signature: buffer::octets(self.signature),
        }
    }
}

/// The fields of a signed announcement.
pub open spec fn signed_fields(signed: SignedView) -> Seq<FieldView> {
    fields::bytes(1, signed.lsa_bytes) + fields::bytes(2, signed.signature)
}

/// The bytes of a signed announcement.
pub open spec fn signed_bytes(signed: SignedView) -> Seq<u8> {
    fields::fields_bytes(signed_fields(signed))
}

/// The signed announcement that bytes are.
pub open spec fn read_signed(bytes: Seq<u8>) -> Option<SignedView> {
    match fields::parse_fields::<SignedLsa>(false, bytes) {
        None => None,
        Some(list) => Some(
            SignedView {
                lsa_bytes: fields::bytes_of(list, 1, Seq::empty()),
                signature: fields::bytes_of(list, 2, Seq::empty()),
            },
        ),
    }
}

impl Message for SignedLsa {
    open spec fn holds(tag: u32) -> Option<Kind> {
        if tag == 1 || tag == 2 {
            Some(Kind::Bytes)
        } else {
            None
        }
    }

    fn kind(tag: u32) -> (kind: Option<Kind>) {
        match tag {
            1 => Some(Kind::Bytes),
            2 => Some(Kind::Bytes),
            _ => None,
        }
    }

    open spec fn named(tag: u32) -> (Seq<char>, Seq<char>) {
        if tag == 1 {
            ("SignedLsa"@, "lsa_bytes"@)
        } else {
            ("SignedLsa"@, "signature"@)
        }
    }

    fn names(tag: u32) -> (names: (&'static str, &'static str)) {
        match tag {
            1 => ("SignedLsa", "lsa_bytes"),
            _ => ("SignedLsa", "signature"),
        }
    }
}

impl SignedLsa {
    /// Writes the signed announcement.
    pub fn encode_to_bytes(&self) -> (encoded: Bytes)
        requires
            signed_bytes(self@).len() <= MAX_BUFFERED,
        ensures
            buffer::octets(encoded) == signed_bytes(self@),
    {
        let mut list: Vec<Field> = Vec::new();
        assert(fields::views(list@) =~= Seq::<FieldView>::empty());
        fields::add_bytes(&mut list, 1, &self.lsa_bytes);
        fields::add_bytes(&mut list, 2, &self.signature);
        assert(fields::views(list@) =~= signed_fields(self@));
        fields::write_fields(&list)
    }

    /// Reads a signed announcement.
    pub fn decode(source: Bytes) -> (signed: Result<Self, DecodeError>)
        ensures
            match signed {
                Ok(s) => read_signed(buffer::octets(source)) == Some(s@),
                Err(_) => read_signed(buffer::octets(source)) is None,
            },
    {
        let list = match fields::read_fields::<SignedLsa>(false, source) {
            Ok(list) => list,
            Err(error) => {
                return Err(error);
            },
        };
        Ok(
            SignedLsa {
                lsa_bytes: fields::find_bytes(&list, 1),
                signature: fields::find_bytes(&list, 2),
            },
        )
    }
}

/// Reading gives back what was written.
pub proof fn written_signed_lsas_are_read_back(signed: SignedView)
    requires
        signed.lsa_bytes.len() <= u64::MAX,
        signed.signature.len() <= u64::MAX,
    ensures
        read_signed(signed_bytes(signed)) == Some(signed),
{
    let none = Seq::<u8>::empty();
    let a = fields::bytes(1, signed.lsa_bytes);
    let b = fields::bytes(2, signed.signature);
    fields::written_fields_are_read_back::<SignedLsa>(false, a + b);
    fields::values_add(a, b, 1, 0, none);
    fields::values_add(a, b, 2, 0, none);
    fields::values_one(1, 0, signed.lsa_bytes, 1, 0, none);
    fields::values_one(1, 0, signed.lsa_bytes, 2, 0, none);
    fields::values_one(2, 0, signed.signature, 1, 0, fields::bytes_of(a, 1, none));
    fields::values_one(2, 0, signed.signature, 2, 0, none);
    assert(fields::bytes_of(a, 1, none) =~= signed.lsa_bytes);
    assert(fields::bytes_of(b, 2, none) =~= signed.signature);
    assert(read_signed(signed_bytes(signed))->0 =~= signed);
}

/// The version known of one origin.
#[derive(Debug, Eq, PartialEq)]
pub struct DigestEntry {
    pub origin: Bytes,
    pub epoch: u32,
    pub seq: u64,
}

/// What an entry says.
#[verifier::ext_equal]
pub struct EntryView {
    pub origin: Seq<u8>,
    pub epoch: u32,
    pub seq: u64,
}

impl View for DigestEntry {
    type V = EntryView;

    open spec fn view(&self) -> EntryView {
        EntryView { origin: buffer::octets(self.origin), epoch: self.epoch, seq: self.seq }
    }
}

/// The fields of an entry.
pub open spec fn entry_fields(entry: EntryView) -> Seq<FieldView> {
    fields::bytes(1, entry.origin) + fields::number(2, entry.epoch as u64) + fields::number(
        3,
        entry.seq,
    )
}

/// The bytes of an entry.
pub open spec fn entry_bytes(entry: EntryView) -> Seq<u8> {
    fields::fields_bytes(entry_fields(entry))
}

/// The entry that bytes are, on their own or as part of a summary.
pub open spec fn read_entry(inner: bool, bytes: Seq<u8>) -> Option<EntryView> {
    match fields::parse_fields::<DigestEntry>(inner, bytes) {
        None => None,
        Some(list) => Some(
            EntryView {
                origin: fields::bytes_of(list, 1, Seq::empty()),
                epoch: fields::number_of(list, 2, 0) as u32,
                seq: fields::number_of(list, 3, 0),
            },
        ),
    }
}

impl Message for DigestEntry {
    open spec fn holds(tag: u32) -> Option<Kind> {
        if tag == 1 {
            Some(Kind::Bytes)
        } else if tag == 2 {
            Some(Kind::Uint32)
        } else if tag == 3 {
            Some(Kind::Uint64)
        } else {
            None
        }
    }

    fn kind(tag: u32) -> (kind: Option<Kind>) {
        match tag {
            1 => Some(Kind::Bytes),
            2 => Some(Kind::Uint32),
            3 => Some(Kind::Uint64),
            _ => None,
        }
    }

    open spec fn named(tag: u32) -> (Seq<char>, Seq<char>) {
        if tag == 1 {
            ("DigestEntry"@, "origin"@)
        } else if tag == 2 {
            ("DigestEntry"@, "epoch"@)
        } else {
            ("DigestEntry"@, "seq"@)
        }
    }

    fn names(tag: u32) -> (names: (&'static str, &'static str)) {
        match tag {
            1 => ("DigestEntry", "origin"),
            2 => ("DigestEntry", "epoch"),
            _ => ("DigestEntry", "seq"),
        }
    }
}

impl DigestEntry {
    /// Writes the entry.
    pub fn encode_to_bytes(&self) -> (encoded: Bytes)
        requires
            entry_bytes(self@).len() <= MAX_BUFFERED,
        ensures
            buffer::octets(encoded) == entry_bytes(self@),
    {
        let mut list: Vec<Field> = Vec::new();
        assert(fields::views(list@) =~= Seq::<FieldView>::empty());
        fields::add_bytes(&mut list, 1, &self.origin);
        fields::add_number(&mut list, 2, self.epoch as u64);
        fields::add_number(&mut list, 3, self.seq);
        assert(fields::views(list@) =~= entry_fields(self@));
        fields::write_fields(&list)
    }

    /// Reads an entry.
    pub fn decode(source: Bytes) -> (entry: Result<Self, DecodeError>)
        ensures
            match entry {
                Ok(e) => read_entry(false, buffer::octets(source)) == Some(e@),
                Err(_) => read_entry(false, buffer::octets(source)) is None,
            },
    {
        Self::read(false, source)
    }

    /// Reads an entry, on its own or as part of a summary.
    fn read(inner: bool, source: Bytes) -> (entry: Result<Self, DecodeError>)
        ensures
            match entry {
                Ok(e) => read_entry(inner, buffer::octets(source)) == Some(e@),
                Err(_) => read_entry(inner, buffer::octets(source)) is None,
            },
    {
        let list = match fields::read_fields::<DigestEntry>(inner, source) {
            Ok(list) => list,
            Err(error) => {
                return Err(error);
            },
        };
        Ok(
            DigestEntry {
                origin: fields::find_bytes(&list, 1),
                epoch: fields::find_number(&list, 2) as u32,
                seq: fields::find_number(&list, 3),
            },
        )
    }
}

/// Reading gives back what was written.
pub proof fn written_entries_are_read_back(inner: bool, entry: EntryView)
    requires
        entry.origin.len() <= u64::MAX,
    ensures
        read_entry(inner, entry_bytes(entry)) == Some(entry),
{
    let none = Seq::<u8>::empty();
    let a = fields::bytes(1, entry.origin);
    let b = fields::number(2, entry.epoch as u64);
    let c = fields::number(3, entry.seq);
    fields::written_fields_are_read_back::<DigestEntry>(inner, a + b + c);
    entry_values(entry, 1);
    entry_values(entry, 2);
    entry_values(entry, 3);
    assert(read_entry(inner, entry_bytes(entry))->0 =~= entry);
}

/// What the fields of an entry hold.
proof fn entry_values(entry: EntryView, tag: u32)
    requires
        tag == 1 || tag == 2 || tag == 3,
    ensures
        tag == 1 ==> fields::bytes_of(entry_fields(entry), tag, Seq::empty()) == entry.origin,
        tag == 2 ==> fields::number_of(entry_fields(entry), tag, 0) == entry.epoch,
        tag == 3 ==> fields::number_of(entry_fields(entry), tag, 0) == entry.seq,
{
    let none = Seq::<u8>::empty();
    let a = fields::bytes(1, entry.origin);
    let b = fields::number(2, entry.epoch as u64);
    let c = fields::number(3, entry.seq);
    let s = fields::bytes_of(a, tag, none);
    let n = fields::number_of(b, tag, 0);
    fields::values_add(a + b, c, tag, 0, none);
    fields::values_add(a, b, tag, 0, none);
    fields::values_one(1, 0, entry.origin, tag, 0, none);
    fields::values_one(2, entry.epoch as u64, none, tag, 0, s);
    fields::values_one(3, entry.seq, none, tag, n, s);
    if tag == 1 {
        assert(s =~= entry.origin);
    }
}

/// An entry takes little more than its origin.
pub proof fn entry_len_is_bounded(entry: EntryView)
    requires
        entry.origin.len() <= u64::MAX,
    ensures
        entry_bytes(entry).len() <= 60 + entry.origin.len(),
{
    let none = Seq::<Seq<u8>>::empty();
    let a = fields::bytes(1, entry.origin);
    let b = fields::number(2, entry.epoch as u64);
    let c = fields::number(3, entry.seq);
    fields::fields_bytes_add(a + b, c);
    fields::fields_bytes_add(a, b);
    fields::lens_are_bounded(1, 0, entry.origin, none, 0);
    fields::lens_are_bounded(2, entry.epoch as u64, Seq::empty(), none, 0);
    fields::lens_are_bounded(3, entry.seq, Seq::empty(), none, 0);
}

/// A summary of what a node knows.
#[derive(Debug, Eq, PartialEq)]
pub struct Digest {
    pub entries: Vec<DigestEntry>,
}

/// What each of several entries says.
pub open spec fn entry_views(list: Seq<DigestEntry>) -> Seq<EntryView> {
    list.map_values(|entry: DigestEntry| entry@)
}

impl View for Digest {
    type V = Seq<EntryView>;

    open spec fn view(&self) -> Seq<EntryView> {
        entry_views(self.entries@)
    }
}

/// The bytes of each of several entries.
pub open spec fn each_entry_bytes(list: Seq<EntryView>) -> Seq<Seq<u8>> {
    list.map_values(|entry: EntryView| entry_bytes(entry))
}

/// The bytes of a summary.
pub open spec fn digest_bytes(entries: Seq<EntryView>) -> Seq<u8> {
    fields::fields_bytes(fields::repeated(1, each_entry_bytes(entries)))
}

/// The entries that parts of a message are.
pub open spec fn read_entries(parts: Seq<Seq<u8>>) -> Option<Seq<EntryView>> {
    fields::read_each(parts, |part: Seq<u8>| read_entry(true, part))
}

/// The summary that bytes are.
pub open spec fn read_digest(bytes: Seq<u8>) -> Option<Seq<EntryView>> {
    match fields::parse_fields::<Digest>(false, bytes) {
        None => None,
        Some(list) => read_entries(fields::all_bytes_of(list, 1)),
    }
}

impl Message for Digest {
    open spec fn holds(tag: u32) -> Option<Kind> {
        if tag == 1 {
            Some(Kind::Bytes)
        } else {
            None
        }
    }

    fn kind(tag: u32) -> (kind: Option<Kind>) {
        match tag {
            1 => Some(Kind::Bytes),
            _ => None,
        }
    }

    open spec fn named(tag: u32) -> (Seq<char>, Seq<char>) {
        ("Digest"@, "entries"@)
    }

    fn names(_tag: u32) -> (names: (&'static str, &'static str)) {
        ("Digest", "entries")
    }
}

impl Digest {
    /// Writes the summary.
    pub fn encode_to_bytes(&self) -> (encoded: Bytes)
        requires
            digest_bytes(self@).len() <= MAX_BUFFERED,
        ensures
            buffer::octets(encoded) == digest_bytes(self@),
    {
        let ghost parts = each_entry_bytes(self@);
        let mut encoded: Vec<Bytes> = Vec::new();
        let mut i: usize = 0;
        while i < self.entries.len()
            invariant
                i <= self.entries@.len(),
                parts == each_entry_bytes(self@),
                digest_bytes(self@).len() <= MAX_BUFFERED,
                fields::contents(encoded@) == parts.take(i as int),
            decreases self.entries@.len() - i,
        {
            proof {
                fields::part_fits(1, parts, i as int);
            }
            let entry = self.entries[i].encode_to_bytes();
            proof {
                fields::contents_push(encoded@, entry);
                assert(parts.take(i + 1) =~= parts.take(i as int).push(parts[i as int]));
            }
            encoded.push(entry);
            assert(fields::contents(encoded@) =~= parts.take(i + 1));
            i = i + 1;
        }
        assert(fields::contents(encoded@) =~= parts);
        let mut list: Vec<Field> = Vec::new();
        assert(fields::views(list@) =~= Seq::<FieldView>::empty());
        fields::add_repeated(&mut list, 1, encoded);
        assert(fields::views(list@) =~= fields::repeated(1, parts));
        fields::write_fields(&list)
    }

    /// Reads a summary.
    pub fn decode(source: Bytes) -> (digest: Result<Self, DecodeError>)
        ensures
            match digest {
                Ok(d) => read_digest(buffer::octets(source)) == Some(d@),
                Err(_) => read_digest(buffer::octets(source)) is None,
            },
    {
        let list = match fields::read_fields::<Digest>(false, source) {
            Ok(list) => list,
            Err(error) => {
                return Err(error);
            },
        };
        let parts = fields::find_all_bytes(&list, 1);
        let ghost all = fields::contents(parts@);
        let mut entries: Vec<DigestEntry> = Vec::new();
        let mut i: usize = 0;
        while i < parts.len()
            invariant
                i <= parts@.len(),
                all == fields::contents(parts@),
                fields::parse_fields::<Digest>(false, buffer::octets(source)) == Some(
                    fields::views(list@),
                ),
                all == fields::all_bytes_of(fields::views(list@), 1),
                entries@.len() == i,
                forall|k: int| 0 <= k < i ==> read_entry(true, #[trigger] all[k]) == Some(entries@[k]@),
            decreases parts@.len() - i,
        {
            assert(all[i as int] == buffer::octets(parts@[i as int]));
            match DigestEntry::read(true, buffer::share(&parts[i])) {
                Ok(entry) => {
                    entries.push(entry);
                },
                Err(error) => {
                    let ghost read = |part: Seq<u8>| read_entry(true, part);
                    assert(!(read(all[i as int]) is Some));
                    return Err(protobuf::located(error, "Digest", "entries"));
                },
            }
            i = i + 1;
        }
        let digest = Digest { entries };
        assert(read_entries(all)->0 =~= digest@);
        Ok(digest)
    }
}

/// Reading gives back what was written.
pub proof fn written_digests_are_read_back(entries: Seq<EntryView>)
    requires
        forall|i: int|
            0 <= i < entries.len() ==> (#[trigger] entries[i]).origin.len() + 60 <= u64::MAX,
    ensures
        read_digest(digest_bytes(entries)) == Some(entries),
{
    let parts = each_entry_bytes(entries);
    let all = fields::repeated(1, parts);
    assert forall|i: int| 0 <= i < parts.len() implies (#[trigger] parts[i]).len() <= u64::MAX
        && read_entry(true, parts[i]) == Some(entries[i]) by {
        entry_len_is_bounded(entries[i]);
        written_entries_are_read_back(true, entries[i]);
    }
    assert forall|i: int| 0 <= i < all.len() implies fields::suits::<Digest>(#[trigger] all[i]) by {
        assert(parts[i].len() <= u64::MAX);
    }
    fields::written_fields_are_read_back::<Digest>(false, all);
    fields::values_repeated(1, parts, 1, 0, Seq::empty());
    assert(read_entries(parts)->0 =~= entries);
}

/// A summary takes little more than its origins.
pub proof fn digest_len_is_bounded(entries: Seq<EntryView>, each: nat)
    requires
        each + 60 <= u64::MAX,
        forall|i: int| 0 <= i < entries.len() ==> (#[trigger] entries[i]).origin.len() <= each,
    ensures
        digest_bytes(entries).len() <= entries.len() * (80 + each),
{
    let parts = each_entry_bytes(entries);
    assert forall|i: int| 0 <= i < parts.len() implies (#[trigger] parts[i]).len() <= each + 60 by {
        entry_len_is_bounded(entries[i]);
    }
    fields::lens_are_bounded(1, 0, Seq::empty(), parts, each + 60);
}

/// A request for announcements.
#[derive(Debug, Eq, PartialEq)]
pub struct DigestReq {
    pub origins: Vec<Bytes>,
}

impl View for DigestReq {
    type V = Seq<Seq<u8>>;

    open spec fn view(&self) -> Seq<Seq<u8>> {
        fields::contents(self.origins@)
    }
}

/// The bytes of a request.
pub open spec fn request_bytes(origins: Seq<Seq<u8>>) -> Seq<u8> {
    fields::fields_bytes(fields::repeated(1, origins))
}

/// The request that bytes are.
pub open spec fn read_request(bytes: Seq<u8>) -> Option<Seq<Seq<u8>>> {
    match fields::parse_fields::<DigestReq>(false, bytes) {
        None => None,
        Some(list) => Some(fields::all_bytes_of(list, 1)),
    }
}

impl Message for DigestReq {
    open spec fn holds(tag: u32) -> Option<Kind> {
        if tag == 1 {
            Some(Kind::Bytes)
        } else {
            None
        }
    }

    fn kind(tag: u32) -> (kind: Option<Kind>) {
        match tag {
            1 => Some(Kind::Bytes),
            _ => None,
        }
    }

    open spec fn named(tag: u32) -> (Seq<char>, Seq<char>) {
        ("DigestReq"@, "origins"@)
    }

    fn names(_tag: u32) -> (names: (&'static str, &'static str)) {
        ("DigestReq", "origins")
    }
}

impl DigestReq {
    /// Writes the request.
    pub fn encode_to_bytes(&self) -> (encoded: Bytes)
        requires
            request_bytes(self@).len() <= MAX_BUFFERED,
        ensures
            buffer::octets(encoded) == request_bytes(self@),
    {
        let mut origins: Vec<Bytes> = Vec::new();
        let mut i: usize = 0;
        while i < self.origins.len()
            invariant
                i <= self.origins@.len(),
                fields::contents(origins@) == self@.take(i as int),
            decreases self.origins@.len() - i,
        {
            let origin = buffer::share(&self.origins[i]);
            proof {
                fields::contents_push(origins@, origin);
                assert(self@.take(i + 1) =~= self@.take(i as int).push(self@[i as int]));
            }
            origins.push(origin);
            assert(fields::contents(origins@) =~= self@.take(i + 1));
            i = i + 1;
        }
        assert(fields::contents(origins@) =~= self@);
        let mut list: Vec<Field> = Vec::new();
        assert(fields::views(list@) =~= Seq::<FieldView>::empty());
        fields::add_repeated(&mut list, 1, origins);
        assert(fields::views(list@) =~= fields::repeated(1, self@));
        fields::write_fields(&list)
    }

    /// Reads a request.
    pub fn decode(source: Bytes) -> (request: Result<Self, DecodeError>)
        ensures
            match request {
                Ok(r) => read_request(buffer::octets(source)) == Some(r@),
                Err(_) => read_request(buffer::octets(source)) is None,
            },
    {
        let list = match fields::read_fields::<DigestReq>(false, source) {
            Ok(list) => list,
            Err(error) => {
                return Err(error);
            },
        };
        Ok(DigestReq { origins: fields::find_all_bytes(&list, 1) })
    }
}

/// Reading gives back what was written.
pub proof fn written_requests_are_read_back(origins: Seq<Seq<u8>>)
    requires
        forall|i: int| 0 <= i < origins.len() ==> (#[trigger] origins[i]).len() <= u64::MAX,
    ensures
        read_request(request_bytes(origins)) == Some(origins),
{
    fields::written_fields_are_read_back::<DigestReq>(false, fields::repeated(1, origins));
    fields::values_repeated(1, origins, 1, 0, Seq::empty());
}

/// A request takes little more than its origins.
pub proof fn request_len_is_bounded(origins: Seq<Seq<u8>>, each: nat)
    requires
        each <= u64::MAX,
        forall|i: int| 0 <= i < origins.len() ==> (#[trigger] origins[i]).len() <= each,
    ensures
        request_bytes(origins).len() <= origins.len() * (20 + each),
{
    fields::lens_are_bounded(1, 0, Seq::empty(), origins, each);
}

} // verus!
