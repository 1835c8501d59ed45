use vstd::prelude::*;

verus! {

/// An IP address: a 32-bit IPv4 or a 128-bit IPv6 address.
#[derive(Clone, Copy, PartialEq, Eq, Debug)]
pub enum IpAddress {
    V4(u32),
    V6(u128),
}

/// An IP network as `ipnetwork` parses it: an address and a prefix length.
pub enum IpNet {
    V4 { addr: u32, prefix: u8 },
    V6 { addr: u128, prefix: u8 },
}

/// The network that `ipnetwork` parses from the text `s`, if it parses one.
pub uninterp spec fn network_of(s: Seq<char>) -> Option<IpNet>;

/// `ipnetwork::IpNetwork::from_str`: parse `s` as an IPv4 network, else as an IPv6
/// network, each as an address with an optional prefix (a plain address has the full
/// prefix). The contract names the result and states the prefix bounds that
/// `Ipv4Network::new` and `Ipv6Network::new` check; which texts parse, and to what,
/// it leaves to the name.
#[verifier::external_body]
fn parse_network(s: &str) -> (r: Option<IpNet>)
    ensures
        r == network_of(s@),
        r matches Some(IpNet::V4 { prefix, .. }) ==> prefix <= 32,
        r matches Some(IpNet::V6 { prefix, .. }) ==> prefix <= 128,
{
    match s.parse::<ipnetwork::IpNetwork>() {
        Ok(ipnetwork::IpNetwork::V4(n)) => Some(IpNet::V4 { addr: u32::from(n.ip()), prefix: n.prefix() }),
        Ok(ipnetwork::IpNetwork::V6(n)) => Some(IpNet::V6 { addr: u128::from(n.ip()), prefix: n.prefix() }),
        Err(_) => None,
    }
}

/// 2 to the `n`.
pub open spec fn pow2(n: nat) -> nat
    decreases n,
{
    if n == 0 {
        1
    } else {
        2 * pow2((n - 1) as nat)
    }
}

/// The addresses of a network, lowest first: from the address with its host bits
/// cleared to the address with its host bits set.
pub open spec fn network_addresses(n: IpNet) -> Seq<IpAddress> {
    match n {
        IpNet::V4 { addr, prefix } => {
            let block = pow2((32 - prefix) as nat);
            let first = addr as nat - addr as nat % block;
            Seq::new(block, |i: int| IpAddress::V4((first + i) as u32))
        },
        IpNet::V6 { addr, prefix } => {
            let block = pow2((128 - prefix) as nat);
            let first = addr as nat - addr as nat % block;
            Seq::new(block, |i: int| IpAddress::V6((first + i) as u128))
        },
    }
}

/// 2 to a power is positive and grows with the power.
pub proof fn lemma_pow2_mono(a: nat, b: nat)
    requires
        a <= b,
    ensures
        0 < pow2(a) <= pow2(b),
    decreases b,
{
    if a < b {
        lemma_pow2_mono(a, (b - 1) as nat);
    } else if a > 0 {
        lemma_pow2_mono((a - 1) as nat, (a - 1) as nat);
    }
}

/// 2 to the 32 and to the 128.
pub proof fn lemma_pow2_widths()
    ensures
        pow2(32) == u32::MAX as nat + 1,
        pow2(128) == u128::MAX as nat + 1,
{
    reveal_with_fuel(pow2, 33);
    assert(pow2(32) == 0x1_0000_0000);
    lemma_pow2_adds(32, 32);
    assert(0x1_0000_0000nat * 0x1_0000_0000nat == 0x1_0000_0000_0000_0000nat);
    lemma_pow2_adds(64, 64);
    assert(0x1_0000_0000_0000_0000nat * 0x1_0000_0000_0000_0000nat == 0x1_0000_0000_0000_0000_0000_0000_0000_0000nat);
}

/// 2 to a sum is the product of the powers.
pub proof fn lemma_pow2_adds(a: nat, b: nat)
    ensures
        pow2(a + b) == pow2(a) * pow2(b),
    decreases a,
{
    if a > 0 {
        let a1 = (a - 1) as nat;
        lemma_pow2_adds(a1, b);
        assert(a1 + b + 1 == a + b);
        assert(pow2(a + b) == 2 * pow2(a1 + b));
        assert(pow2(a) == 2 * pow2(a1));
        let x = pow2(a1);
        let y = pow2(b);
        assert(2 * (x * y) == (2 * x) * y) by (nonlinear_arith);
    } else {
        assert(a + b == b);
        assert(pow2(a) == 1);
    }
}

/// The block of a network that holds an address fits in the address space.
pub proof fn lemma_block_fits(a: nat, block: nat, m: nat)
    requires
        block > 0,
        a < block * m,
    ensures
        a % block <= a,
        a - a % block + block <= block * m,
{
    vstd::arithmetic::div_mod::lemma_fundamental_div_mod(a as int, block as int);
    let q = a / block;
    assert(q < m) by (nonlinear_arith)
        requires
            block > 0,
            block * q <= a,
            a < block * m,
    ;
    assert(block * q + block <= block * m) by (nonlinear_arith)
        requires
            q < m,
            block > 0,
    ;
    vstd::arithmetic::div_mod::lemma_mod_bound(a as int, block as int);
}

/// The addresses `first` to `first + block - 1`, IPv4.
fn v4_range(first: u64, block: u64) -> (v: Vec<IpAddress>)
    requires
        0 < block,
        first + block <= u32::MAX as nat + 1,
    ensures
        v@ == Seq::new(block as nat, |i: int| IpAddress::V4((first + i) as u32)),
{
    let mut v: Vec<IpAddress> = Vec::new();
    let mut i: u64 = 0;
    while i < block
        invariant
            i <= block,
            first + block <= u32::MAX as nat + 1,
            v@ == Seq::new(i as nat, |j: int| IpAddress::V4((first + j) as u32)),
        decreases block - i,
    {
        v.push(IpAddress::V4((first + i) as u32));
        i = i + 1;
        proof {
            assert(v@ =~= Seq::new(i as nat, |j: int| IpAddress::V4((first + j) as u32)));
        }
    }
    v
}

/// The addresses `first` to `last`, IPv6.
fn v6_range(first: u128, last: u128) -> (v: Vec<IpAddress>)
    requires
        first <= last,
    ensures
        v@ == Seq::new((last - first + 1) as nat, |i: int| IpAddress::V6((first + i) as u128)),
{
    let mut v: Vec<IpAddress> = Vec::new();
    let mut a: u128 = first;
    loop
        invariant
            first <= a <= last,
            v@ == Seq::new((a - first) as nat, |j: int| IpAddress::V6((first + j) as u128)),
        decreases last - a,
    {
        v.push(IpAddress::V6(a));
        proof {
            assert(v@ =~= Seq::new((a - first + 1) as nat, |j: int| IpAddress::V6((first + j) as u128)));
        }
        if a == last {
            return v;
        }
        a = a + 1;
    }
}

/// All addresses of a network, lowest first.
pub fn expand_network(n: &IpNet) -> (v: Vec<IpAddress>)
    requires
        n matches IpNet::V4 { prefix, .. } ==> prefix <= 32,
        n matches IpNet::V6 { prefix, .. } ==> prefix <= 128,
    ensures
        v@ == network_addresses(*n),
{
    proof {
        lemma_pow2_widths();
    }
    match n {
        IpNet::V4 { addr, prefix } => {
            let host_bits: u64 = 32 - *prefix as u64;
            let mut block: u64 = 1;
            let mut k: u64 = 0;
            while k < host_bits
                invariant
                    k <= host_bits <= 32,
                    block == pow2(k as nat),
                decreases host_bits - k,
            {
                proof {
                    lemma_pow2_widths();
                    lemma_pow2_mono(k as nat + 1, 32);
                }
                block = block * 2;
                k = k + 1;
            }
            proof {
                lemma_pow2_mono(host_bits as nat, 32);
            }
            let a = *addr as u64;
            proof {
                lemma_pow2_adds(host_bits as nat, (32 - host_bits) as nat);
                lemma_block_fits(a as nat, block as nat, pow2((32 - host_bits) as nat));
            }
            let first = a - a % block;
            v4_range(first, block)
        },
        IpNet::V6 { addr, prefix } => {
            let host_bits: u32 = 128 - *prefix as u32;
            if host_bits == 128 {
                let v = v6_range(0, u128::MAX);
                proof {
                    vstd::arithmetic::div_mod::lemma_small_mod(*addr as nat, pow2(128));
                    assert(v@ =~= network_addresses(*n));
                }
                v
            } else {
                let mut block: u128 = 1;
                let mut k: u32 = 0;
                while k < host_bits
                    invariant
                        k <= host_bits < 128,
                        block == pow2(k as nat),
                    decreases host_bits - k,
                {
                    proof {
                        lemma_pow2_widths();
                        lemma_pow2_mono(k as nat + 1, 127);
                        lemma_pow2_mono(127, 128);
                    }
                    block = block * 2;
                    k = k + 1;
                }
                proof {
                    lemma_pow2_mono(host_bits as nat, 128);
                }
                proof {
                    lemma_pow2_adds(host_bits as nat, (128 - host_bits) as nat);
                    lemma_block_fits(*addr as nat, block as nat, pow2((128 - host_bits) as nat));
                }
                let first = *addr - *addr % block;
                let v = v6_range(first, first + (block - 1));
                proof {
                    assert(v@ =~= network_addresses(*n));
                }
                v
            }
        },
    }
}


/// The byte of a comma.
pub const COMMA: u8 = 44u8;

/// The position of the first comma of `b`, or its length if it has none.
pub open spec fn first_comma(b: Seq<u8>) -> nat
    decreases b.len(),
{
    if b.len() == 0 {
        0
    } else if b[0] == COMMA {
        0
    } else {
        1 + first_comma(b.drop_first())
    }
}

/// The first comma is where it says it is.
pub proof fn lemma_first_comma(b: Seq<u8>)
    ensures
        first_comma(b) <= b.len(),
        first_comma(b) < b.len() ==> b[first_comma(b) as int] == COMMA,
        forall|k: int| 0 <= k < first_comma(b) ==> b[k] != COMMA,
    decreases b.len(),
{
    if b.len() > 0 && b[0] != COMMA {
        lemma_first_comma(b.drop_first());
        assert forall|k: int| 0 <= k < first_comma(b) implies b[k] != COMMA by {
            if k > 0 {
                assert(b[k] == b.drop_first()[k - 1]);
            }
        }
    }
}

/// The pieces of `b` between its commas, in order; a text without commas is one piece.
pub open spec fn comma_pieces(b: Seq<u8>) -> Seq<Seq<u8>>
    decreases b.len(),
{
    let j = first_comma(b);
    if j >= b.len() {
        seq![b]
    } else {
        seq![b.take(j as int)] + comma_pieces(b.skip(j as int + 1))
    }
}

/// The pieces of the text `s` between its commas, in order.
pub open spec fn split_text(s: Seq<char>) -> Seq<Seq<char>> {
    comma_pieces(vstd::utf8::encode_utf8(s)).map_values(|b: Seq<u8>| vstd::utf8::decode_utf8(b))
}

/// A comma of a text is a character boundary, and so is the position after it.
proof fn lemma_comma_boundary(b: Seq<u8>, j: int)
    requires
        vstd::utf8::valid_utf8(b),
        0 <= j < b.len(),
        b[j] == COMMA,
    ensures
        vstd::utf8::is_char_boundary(b, j),
{
    vstd::utf8::is_char_boundary_iff_not_is_continuation_byte(b, j);
}

/// In a text that starts with a comma, the position after the comma is a boundary.
proof fn lemma_after_comma_boundary(b: Seq<u8>)
    requires
        vstd::utf8::valid_utf8(b),
        0 < b.len(),
        b[0] == COMMA,
    ensures
        vstd::utf8::is_char_boundary(b, 1),
{
    reveal_with_fuel(vstd::utf8::is_char_boundary, 2);
    reveal_with_fuel(vstd::utf8::valid_utf8, 2);
}

/// The first comma of `b`, found by a scan.
fn find_comma(b: &[u8]) -> (j: usize)
    ensures
        j == first_comma(b@),
{
    proof {
        lemma_first_comma(b@);
    }
    let mut j: usize = 0;
    while j < b.len() && b[j] != COMMA
        invariant
            j <= b@.len(),
            forall|k: int| 0 <= k < j ==> b@[k] != COMMA,
            first_comma(b@) <= b@.len(),
            first_comma(b@) < b@.len() ==> b@[first_comma(b@) as int] == COMMA,
            forall|k: int| 0 <= k < first_comma(b@) ==> b@[k] != COMMA,
        decreases b.len() - j,
    {
        j = j + 1;
    }
    j
}

/// Split `input` at its commas, as `str::split(',')` does.
pub fn split_commas(input: &str) -> (v: Vec<String>)
    ensures
        v@.map_values(|x: String| x@) == split_text(input@),
{
    let ghost all = vstd::utf8::encode_utf8(input@);
    let ghost mut done: Seq<Seq<u8>> = Seq::empty();
    let mut out: Vec<String> = Vec::new();
    let mut rest: &str = input;
    loop
        invariant
            all == vstd::utf8::encode_utf8(input@),
            comma_pieces(all) == done + comma_pieces(vstd::utf8::encode_utf8(rest@)),
            out@.map_values(|x: String| x@) == done.map_values(|b: Seq<u8>| vstd::utf8::decode_utf8(b)),
        decreases vstd::utf8::encode_utf8(rest@).len(),
    {
        let ghost rb = vstd::utf8::encode_utf8(rest@);
        proof {
            vstd::utf8::encode_utf8_valid_utf8(rest@);
            vstd::utf8::encode_utf8_decode_utf8(rest@);
        }
        let bytes = rest.as_bytes();
        let j = find_comma(bytes);
        proof {
            lemma_first_comma(rb);
        }
        if j == bytes.len() {
            let ghost piece = rest@;
            let owned = rest.to_owned();
            let ghost pre = out@;
            out.push(owned);
            proof {
                assert(out@ == pre.push(owned));
                assert(out@.map_values(|x: String| x@) =~= pre.map_values(|x: String| x@).push(piece));
            }
            proof {
                assert(comma_pieces(rb) == seq![rb]);
                done = done.push(rb);
                assert(vstd::utf8::decode_utf8(rb) == piece);
                assert(out@.map_values(|x: String| x@) =~= done.map_values(|b: Seq<u8>| vstd::utf8::decode_utf8(b)));
                assert(comma_pieces(all) =~= done);
                assert(done.map_values(|b: Seq<u8>| vstd::utf8::decode_utf8(b)) == split_text(input@));
            }
            return out;
        }
        proof {
            lemma_comma_boundary(rb, j as int);
        }
        let (piece, tail) = rest.split_at(j);
        proof {
            assert(vstd::utf8::encode_utf8(tail@) =~= rb.skip(j as int));
            assert(vstd::utf8::encode_utf8(tail@)[0] == COMMA);
            vstd::utf8::encode_utf8_valid_utf8(tail@);
            lemma_after_comma_boundary(vstd::utf8::encode_utf8(tail@));
        }
        let ghost pb = vstd::utf8::encode_utf8(piece@);
        proof {
            vstd::utf8::encode_utf8_decode_utf8(piece@);
        }
        let owned = piece.to_owned();
        let ghost pre = out@;
        out.push(owned);
        proof {
            assert(out@ == pre.push(owned));
            assert(out@.map_values(|x: String| x@) =~= pre.map_values(|x: String| x@).push(piece@));
        }
        let (_, after) = tail.split_at(1);
        proof {
            assert(pb =~= rb.take(j as int));
            assert(vstd::utf8::encode_utf8(after@) =~= rb.skip(j + 1));
            assert(comma_pieces(rb) == seq![rb.take(j as int)] + comma_pieces(rb.skip(j + 1)));
            done = done.push(pb);
            assert(comma_pieces(all) =~= done + comma_pieces(vstd::utf8::encode_utf8(after@)));
            assert(vstd::utf8::decode_utf8(pb) == piece@);
            assert(out@.map_values(|x: String| x@) =~= done.map_values(|b: Seq<u8>| vstd::utf8::decode_utf8(b)));
        }
        rest = after;
    }
}


/// A ping target named on the command line: an address, or a name left to resolve.
pub enum Target {
    /// An address, of a network or given as one.
    Address(IpAddress),
    /// Text that is no network, to be resolved as a host name.
    Unresolved(String),
}

/// What a `Target` holds.
pub enum TargetView {
    Address(IpAddress),
    Unresolved(Seq<char>),
}

impl View for Target {
    type V = TargetView;

    open spec fn view(&self) -> TargetView {
        match self {
            Target::Address(a) => TargetView::Address(*a),
            Target::Unresolved(s) => TargetView::Unresolved(s@),
        }
    }
}

/// The targets of one comma-separated piece: the addresses of the network it names,
/// or the piece itself to resolve.
pub open spec fn piece_targets(p: Seq<char>) -> Seq<TargetView> {
    match network_of(p) {
        Some(n) => network_addresses(n).map_values(|a: IpAddress| TargetView::Address(a)),
        None => seq![TargetView::Unresolved(p)],
    }
}

/// The targets of the pieces, in order.
pub open spec fn pieces_targets(ps: Seq<Seq<char>>) -> Seq<TargetView>
    decreases ps.len(),
{
    if ps.len() == 0 {
        Seq::empty()
    } else {
        pieces_targets(ps.drop_last()) + piece_targets(ps.last())
    }
}

/// The views of a vector of targets, in order.
pub open spec fn target_views(v: Seq<Target>) -> Seq<TargetView> {
    v.map_values(|t: Target| t@)
}

/// Parse a comma-separated list of targets: each piece that parses as a network gives
/// all its addresses, lowest first; any other piece is left to resolve as a name.
pub fn parse_ips(input: &str) -> (v: Vec<Target>)
    ensures
        target_views(v@) == pieces_targets(split_text(input@)),
{
    let pieces = split_commas(input);
    let ghost ps = pieces@.map_values(|x: String| x@);
    let mut v: Vec<Target> = Vec::new();
    let mut i: usize = 0;
    while i < pieces.len()
        invariant
            i <= pieces@.len(),
            ps == pieces@.map_values(|x: String| x@),
            target_views(v@) == pieces_targets(ps.take(i as int)),
        decreases pieces.len() - i,
    {
        proof {
            assert(ps.take(i + 1).drop_last() =~= ps.take(i as int));
            assert(ps.take(i + 1).last() == pieces@[i as int]@);
        }
        let piece = &pieces[i];
        match parse_network(piece.as_str()) {
            Some(n) => {
                let addrs = expand_network(&n);
                let ghost base = target_views(v@);
                let mut k: usize = 0;
                while k < addrs.len()
                    invariant
                        k <= addrs@.len(),
                        target_views(v@) == base + addrs@.take(k as int).map_values(|a: IpAddress| TargetView::Address(a)),
                    decreases addrs.len() - k,
                {
                    let a = addrs[k];
                    let ghost pre = v@;
                    v.push(Target::Address(a));
                    proof {
                        assert(v@ == pre.push(Target::Address(a)));
                        assert(target_views(v@) =~= target_views(pre).push(TargetView::Address(a)));
                        assert(addrs@.take(k + 1) =~= addrs@.take(k as int).push(a));
                    }
                    k = k + 1;
                    proof {
                        assert(target_views(v@) =~= base + addrs@.take(k as int).map_values(|a: IpAddress| TargetView::Address(a)));
                    }
                }
                proof {
                    assert(addrs@.take(k as int) =~= addrs@);
                }
            },
            None => {
                v.push(Target::Unresolved(piece.clone()));
            },
        }
        i = i + 1;
        proof {
            assert(target_views(v@) =~= pieces_targets(ps.take(i as int)));
        }
    }
    proof {
        assert(ps.take(i as int) =~= ps);
    }
    v
}


/// The pieces joined again with commas, as the text was.
pub open spec fn join_commas(ps: Seq<Seq<u8>>) -> Seq<u8>
    decreases ps.len(),
{
    if ps.len() == 0 {
        Seq::empty()
    } else if ps.len() == 1 {
        ps[0]
    } else {
        ps[0] + seq![COMMA] + join_commas(ps.drop_first())
    }
}

/// Splitting at the commas loses nothing: the pieces hold no comma, and joined with
/// commas they give back the text.
pub proof fn law_split_join(b: Seq<u8>)
    ensures
        join_commas(comma_pieces(b)) == b,
        forall|i: int, k: int|
            0 <= i < comma_pieces(b).len() && 0 <= k < comma_pieces(b)[i].len() ==> #[trigger] comma_pieces(
                b,
            )[i][k] != COMMA,
        comma_pieces(b).len() >= 1,
    decreases b.len(),
{
    lemma_first_comma(b);
    let j = first_comma(b);
    if j < b.len() {
        let rest = b.skip(j as int + 1);
        law_split_join(rest);
        let ps = comma_pieces(b);
        assert(ps == seq![b.take(j as int)] + comma_pieces(rest));
        assert(ps.drop_first() =~= comma_pieces(rest));
        assert(b =~= b.take(j as int) + seq![COMMA] + rest);
        assert forall|i: int, k: int| 0 <= i < ps.len() && 0 <= k < ps[i].len() implies #[trigger] ps[i][k] != COMMA by {
            if i > 0 {
                assert(ps[i] == comma_pieces(rest)[i - 1]);
            }
        }
    }
}

/// A network holds the address that it was written with; a full-length prefix names
/// that address alone.
pub proof fn law_network_holds_its_address(addr: u32, prefix: u8)
    requires
        prefix <= 32,
    ensures
        network_addresses(IpNet::V4 { addr, prefix }).contains(IpAddress::V4(addr)),
        prefix == 32 ==> network_addresses(IpNet::V4 { addr, prefix }) == seq![IpAddress::V4(addr)],
{
    let block = pow2((32 - prefix) as nat);
    lemma_pow2_mono(0, (32 - prefix) as nat);
    let r = (addr as nat) % block;
    vstd::arithmetic::div_mod::lemma_mod_bound(addr as int, block as int);
    let s = network_addresses(IpNet::V4 { addr, prefix });
    assert(s[r as int] == IpAddress::V4(addr));
    if prefix == 32 {
        assert(block == 1);
        assert(s =~= seq![IpAddress::V4(addr)]);
    }
}

/// An IPv4 network with prefix `p` holds exactly 2 to the (32 - p) addresses, no two
/// alike, and a 32-bit address is among them exactly when its top `p` bits are those of
/// the network's address: when it falls in the same block of 2 to the (32 - p).
pub proof fn law_v4_network_expansion(addr: u32, prefix: u8)
    requires
        prefix <= 32,
    ensures
        network_addresses(IpNet::V4 { addr, prefix }).len() == pow2((32 - prefix) as nat),
        forall|i: int, j: int|
            0 <= i < j < network_addresses(IpNet::V4 { addr, prefix }).len() ==>
                network_addresses(IpNet::V4 { addr, prefix })[i]
                    != network_addresses(IpNet::V4 { addr, prefix })[j],
        forall|x: u32|
            network_addresses(IpNet::V4 { addr, prefix }).contains(IpAddress::V4(x))
                <==> x as nat / pow2((32 - prefix) as nat) == addr as nat / pow2((32 - prefix) as nat),
{
    let h = (32 - prefix) as nat;
    let block = pow2(h);
    let s = network_addresses(IpNet::V4 { addr, prefix });
    lemma_pow2_widths();
    lemma_pow2_mono(0, h);
    lemma_pow2_adds(h, prefix as nat);
    assert(h + prefix as nat == 32);
    lemma_block_fits(addr as nat, block, pow2(prefix as nat));
    let q = addr as nat / block;
    let first = addr as nat - addr as nat % block;
    vstd::arithmetic::div_mod::lemma_fundamental_div_mod(addr as int, block as int);
    assert(first == block * q);
    assert(first + block <= u32::MAX as nat + 1);
    assert forall|i: int| 0 <= i < block implies s[i] == IpAddress::V4((first + i) as u32)
        && (first + i) as u32 as nat == first + i by {}
    assert forall|i: int, j: int| 0 <= i < j < s.len() implies s[i] != s[j] by {
        assert((first + i) as u32 != (first + j) as u32);
    }
    assert forall|x: u32| s.contains(IpAddress::V4(x)) <==> x as nat / block == q by {
        if s.contains(IpAddress::V4(x)) {
            let i = choose|i: int| 0 <= i < s.len() && s[i] == IpAddress::V4(x);
            assert(x as nat == first + i);
            assert(x as int == q * block + i) by (nonlinear_arith)
                requires
                    x as int == first + i,
                    first == block * q,
            ;
            vstd::arithmetic::div_mod::lemma_fundamental_div_mod_converse(x as int, block as int, q as int, i);
        }
        if x as nat / block == q {
            let r = x as nat % block;
            vstd::arithmetic::div_mod::lemma_fundamental_div_mod(x as int, block as int);
            vstd::arithmetic::div_mod::lemma_mod_bound(x as int, block as int);
            assert(x as nat == first + r);
            assert(s[r as int] == IpAddress::V4(x));
        }
    }
}

/// An IPv6 network with prefix `p` holds exactly 2 to the (128 - p) addresses, no two
/// alike, and a 128-bit address is among them exactly when its top `p` bits are those of
/// the network's address: when it falls in the same block of 2 to the (128 - p).
pub proof fn law_v6_network_expansion(addr: u128, prefix: u8)
    requires
        prefix <= 128,
    ensures
        network_addresses(IpNet::V6 { addr, prefix }).len() == pow2((128 - prefix) as nat),
        forall|i: int, j: int|
            0 <= i < j < network_addresses(IpNet::V6 { addr, prefix }).len() ==>
                network_addresses(IpNet::V6 { addr, prefix })[i]
                    != network_addresses(IpNet::V6 { addr, prefix })[j],
        forall|x: u128|
            network_addresses(IpNet::V6 { addr, prefix }).contains(IpAddress::V6(x))
                <==> x as nat / pow2((128 - prefix) as nat) == addr as nat / pow2((128 - prefix) as nat),
{
    let h = (128 - prefix) as nat;
    let block = pow2(h);
    let s = network_addresses(IpNet::V6 { addr, prefix });
    lemma_pow2_widths();
    lemma_pow2_mono(0, h);
    lemma_pow2_adds(h, prefix as nat);
    assert(h + prefix as nat == 128);
    lemma_block_fits(addr as nat, block, pow2(prefix as nat));
    let q = addr as nat / block;
    let first = addr as nat - addr as nat % block;
    vstd::arithmetic::div_mod::lemma_fundamental_div_mod(addr as int, block as int);
    assert(first == block * q);
    assert(first + block <= u128::MAX as nat + 1);
    assert forall|i: int| 0 <= i < block implies s[i] == IpAddress::V6((first + i) as u128)
        && (first + i) as u128 as nat == first + i by {}
    assert forall|i: int, j: int| 0 <= i < j < s.len() implies s[i] != s[j] by {
        assert((first + i) as u128 != (first + j) as u128);
    }
    assert forall|x: u128| s.contains(IpAddress::V6(x)) <==> x as nat / block == q by {
        if s.contains(IpAddress::V6(x)) {
            let i = choose|i: int| 0 <= i < s.len() && s[i] == IpAddress::V6(x);
            assert(x as nat == first + i);
            assert(x as int == q * block + i) by (nonlinear_arith)
                requires
                    x as int == first + i,
                    first == block * q,
            ;
            vstd::arithmetic::div_mod::lemma_fundamental_div_mod_converse(x as int, block as int, q as int, i);
        }
        if x as nat / block == q {
            let r = x as nat % block;
            vstd::arithmetic::div_mod::lemma_fundamental_div_mod(x as int, block as int);
            vstd::arithmetic::div_mod::lemma_mod_bound(x as int, block as int);
            assert(x as nat == first + r);
            assert(s[r as int] == IpAddress::V6(x));
        }
    }
}

} // verus!
