//! Content addressing: BLAKE3 digests, their lower-case hex form, and the
//! content-addressed asset and prefab identities built from them.

use vstd::prelude::*;

verus! {

/// The BLAKE3 digest of a byte string, as `blake3::hash` computes it.
pub uninterp spec fn blake3_digest(data: Seq<u8>) -> Seq<u8>;

/// Computes the BLAKE3 digest of `data`. Calls `blake3::hash` and returns
/// its 32 bytes; trusted (not proved) to return [`blake3_digest`] of the
/// input, a function of the input bytes alone.
#[verifier::external_body]
pub(crate) fn blake3_hash(data: &[u8]) -> (r: [u8; 32])
    ensures
        r@ == blake3_digest(data@),
{
    *blake3::hash(data).as_bytes()
}

/// The lower-case hexadecimal digit of a nibble.
pub open spec fn hex_char(n: u8) -> char {
    if n < 10 {
        ((48 + n) as u8) as char
    } else {
        ((87 + n) as u8) as char
    }
}

/// Two lower-case hexadecimal digits per byte, high nibble first.
pub open spec fn hex_of(bytes: Seq<u8>) -> Seq<char>
    decreases bytes.len(),
{
    if bytes.len() == 0 {
        Seq::empty()
    } else {
        hex_of(bytes.drop_last()) + seq![hex_char(bytes.last() / 16), hex_char(bytes.last() % 16)]
    }
}

/// The one-character string of the hexadecimal digit of `n`.
fn hex_digit(n: u8) -> (r: &'static str)
    requires
        n < 16,
    ensures
        r@ == seq![hex_char(n)],
{
    match n {
        0 => {
            proof {
                reveal_strlit("0");
            }
            "0"
        },
        1 => {
            proof {
                reveal_strlit("1");
            }
            "1"
        },
        2 => {
            proof {
                reveal_strlit("2");
            }
            "2"
        },
        3 => {
            proof {
                reveal_strlit("3");
            }
            "3"
        },
        4 => {
            proof {
                reveal_strlit("4");
            }
            "4"
        },
        5 => {
            proof {
                reveal_strlit("5");
            }
            "5"
        },
        6 => {
            proof {
                reveal_strlit("6");
            }
            "6"
        },
        7 => {
            proof {
                reveal_strlit("7");
            }
            "7"
        },
        8 => {
            proof {
                reveal_strlit("8");
            }
            "8"
        },
        9 => {
            proof {
                reveal_strlit("9");
            }
            "9"
        },
        10 => {
            proof {
                reveal_strlit("a");
            }
            "a"
        },
        11 => {
            proof {
                reveal_strlit("b");
            }
            "b"
        },
        12 => {
            proof {
                reveal_strlit("c");
            }
            "c"
        },
        13 => {
            proof {
                reveal_strlit("d");
            }
            "d"
        },
        14 => {
            proof {
                reveal_strlit("e");
            }
            "e"
        },
        _ => {
            proof {
                reveal_strlit("f");
            }
            "f"
        },
    }
}

/// Appends the lower-case hexadecimal form of `bytes` to `out`.
pub fn append_hex(out: &mut String, bytes: &[u8])
    ensures
        final(out)@ == old(out)@ + hex_of(bytes@),
{
    let ghost start = out@;
    let mut i: usize = 0;
    while i < bytes.len()
        invariant
            i <= bytes@.len(),
            out@ == start + hex_of(bytes@.take(i as int)),
        decreases bytes@.len() - i,
    {
        let b = bytes[i];
        out.append(hex_digit(b / 16));
        out.append(hex_digit(b % 16));
        proof {
            assert(bytes@.take(i + 1).drop_last() =~= bytes@.take(i as int));
            assert(bytes@.take(i + 1).last() == b);
            assert(out@ =~= start + hex_of(bytes@.take(i + 1)));
        }
        i = i + 1;
    }
    assert(bytes@.take(bytes@.len() as int) =~= bytes@);
}

/// Returns the lower-case hexadecimal form of `bytes`.
pub fn to_hex(bytes: &[u8]) -> (r: String)
    ensures
        r@ == hex_of(bytes@),
{
    let mut s = String::new();
    append_hex(&mut s, bytes);
    assert(s@ =~= hex_of(bytes@));
    s
}

/// Returns the BLAKE3 hash of `data` as a `blake3:<hex>` string.
pub fn hash_image(data: &[u8]) -> (r: String)
    ensures
        r@ == "blake3:"@ + hex_of(blake3_digest(data@)),
{
    let digest = blake3_hash(data);
    let mut s = String::from_str("blake3:");
    append_hex(&mut s, &digest);
    s
}

/// A content-addressed asset identity: the BLAKE3 digest of the asset's
/// bytes.
#[derive(Copy, Clone, Debug, PartialEq, Eq, Hash)]
pub struct AssetId(pub [u8; 32]);

impl AssetId {
    /// The all-zero id used for an absent reference.
    pub fn null() -> (r: Self)
        ensures
            r.0@ == Seq::new(32, |i: int| 0u8),
    {
        let r = AssetId([0u8; 32]);
        assert(r.0@ =~= Seq::new(32, |i: int| 0u8));
        r
    }

    /// The id of the given bytes.
    pub fn from_content(bytes: &[u8]) -> (r: Self)
        ensures
            r.0@ == blake3_digest(bytes@),
    {
        AssetId(blake3_hash(bytes))
    }

    /// Whether every byte of the id is zero.
    pub fn is_null(&self) -> (r: bool)
        ensures
            r == (forall|i: int| 0 <= i < 32 ==> self.0@[i] == 0),
    {
        let mut i: usize = 0;
        while i < 32
            invariant
                i <= 32,
                forall|j: int| 0 <= j < i ==> self.0@[j] == 0,
            decreases 32 - i,
        {
            if self.0[i] != 0 {
                return false;
            }
            i = i + 1;
        }
        true
    }

    /// Whether the two ids are the same.
    pub fn same(&self, other: &AssetId) -> (r: bool)
        ensures
            r == (self.0@ == other.0@),
    {
        let mut i: usize = 0;
        while i < 32
            invariant
                i <= 32,
                forall|j: int| 0 <= j < i ==> self.0@[j] == other.0@[j],
            decreases 32 - i,
        {
            if self.0[i] != other.0[i] {
                return false;
            }
            i = i + 1;
        }
        assert(self.0@ =~= other.0@);
        true
    }
}

/// A content-addressed prefab identity.
#[derive(Copy, Clone, Debug, PartialEq, Eq, Hash)]
pub struct PrefabId(pub AssetId);

impl PrefabId {
    /// The null prefab reference.
    pub fn null() -> (r: Self)
        ensures
            r.0.0@ == Seq::new(32, |i: int| 0u8),
    {
        PrefabId(AssetId::null())
    }

    /// Computes the prefab id from raw serialized bytes.
    pub fn compute(bytes: &[u8]) -> (r: Self)
        ensures
            r.0.0@ == blake3_digest(bytes@),
    {
        PrefabId(AssetId::from_content(bytes))
    }

    /// Wraps an asset id.
    pub fn from_asset_id(id: AssetId) -> (r: Self)
        ensures
            r.0 == id,
    {
        PrefabId(id)
    }

    /// The underlying asset id.
    pub fn asset_id(&self) -> (r: AssetId)
        ensures
            r == self.0,
    {
        self.0
    }

    /// Whether the two ids are the same.
    pub fn same(&self, other: &PrefabId) -> (r: bool)
        ensures
            r == (self.0.0@ == other.0.0@),
    {
        self.0.same(&other.0)
    }
}

} // verus!
