//! Reading a trained model's description: a TOML document with the
//! positions of each bucket under `btree_indices` and the weights and
//! biases of the router's layers under `layer0`, `layer1`, and so on.
//!
//! The document is parsed by the `toml` crate. What this module knows of a
//! parsed value it knows through the few functions at the top, each one
//! call into that crate with a contract that is believed, not proved;
//! everything below them is proved from those contracts.

use vstd::prelude::*;

verus! {

/// `toml::Value`, a parsed TOML value; the proofs do not look inside.
#[verifier::external_type_specification]
#[verifier::external_body]
pub struct ExValue(toml::Value);

/// `toml::de::Error`, why a text did not parse; the proofs do not look
/// inside.
#[verifier::external_type_specification]
#[verifier::external_body]
pub struct ExParseError(toml::de::Error);

/// What a TOML value holds, as far as this library reads it. A float is
/// held by the bits of its 64-bit representation.
pub ghost enum Content {
    Integer(i64),
    Float(u64),
    Array(Seq<Content>),
    Table(Map<Seq<char>, Content>),
    Other,
}

/// What the value `v` holds. Nothing is known of it but what the
/// functions below say of the values they are given and hand out.
pub uninterp spec fn content(v: toml::Value) -> Content;

/// What the TOML document `text` holds, if it is one: what `toml::from_str`
/// makes of the text. Nothing is known of it for any given text.
pub uninterp spec fn parsed(text: Seq<char>) -> Option<Content>;

/// Why a model's description could not be used.
#[derive(Clone, Copy, Debug, PartialEq, Eq)]
pub enum ConfigError {
    /// The text is no TOML document.
    Syntax,
    /// The document has no entry `btree_indices`.
    MissingIndices,
    /// `btree_indices` is not an array of arrays of integers that each fit
    /// in 32 bits unsigned.
    BadIndices,
    /// A bucket lists more positions than a tree can hold.
    BucketTooLarge { bucket: usize },
    /// The entry of a layer is not an array of at least two arrays of
    /// floats.
    BadLayer { layer: usize },
    /// The layers do not make a network.
    Shape(crate::neural::ShapeError),
    /// The buckets do not fit the dataset.
    Build(crate::forwarding_model::BuildError),
}

/// `toml::from_str` at the type `toml::Value`: parses a TOML document.
/// Believed: whether the text parses, and what the value then holds,
/// depends on the text alone.
#[verifier::external_body]
fn parse(text: &str) -> (r: Result<toml::Value, toml::de::Error>)
    ensures
        r matches Ok(v) ==> parsed(text@) == Some(content(v)),
        r is Err ==> parsed(text@) is None,
{
    toml::from_str::<toml::Value>(text)
}

/// `toml::Value::as_integer`. Believed: it returns the integer exactly if
/// the value is one.
#[verifier::external_body]
pub(crate) fn integer_of(v: &toml::Value) -> (r: Option<i64>)
    ensures
        r == (match content(*v) {
            Content::Integer(i) => Some(i),
            _ => None,
        }),
{
    v.as_integer()
}

/// `toml::Value::as_float`, the float handed on as the bits that
/// `to_bits` gives. Believed: it returns the float exactly if the value is
/// one.
#[verifier::external_body]
pub(crate) fn float_bits_of(v: &toml::Value) -> (r: Option<u64>)
    ensures
        r == (match content(*v) {
            Content::Float(bits) => Some(bits),
            _ => None,
        }),
{
    v.as_float().map(|x| x.to_bits())
}

/// `toml::Value::as_array`. Believed: it returns the items, all of them
/// and in their order, exactly if the value is an array.
#[verifier::external_body]
pub(crate) fn items_of(v: &toml::Value) -> (r: Option<&Vec<toml::Value>>)
    ensures
        match content(*v) {
            Content::Array(items) => r matches Some(a) && a@.len() == items.len() && forall|i: int|
                0 <= i < items.len() ==> content(#[trigger] a@[i]) == items[i],
            _ => r is None,
        },
{
    v.as_array()
}

/// `toml::Value::get` with a string. Believed: it returns the entry under
/// `key` exactly if the value is a table that has one.
#[verifier::external_body]
pub(crate) fn entry_of<'a>(v: &'a toml::Value, key: &str) -> (r: Option<&'a toml::Value>)
    ensures
        match content(*v) {
            Content::Table(entries) => if entries.contains_key(key@) {
                r matches Some(e) && content(*e) == entries[key@]
            } else {
                r is None
            },
            _ => r is None,
        },
{
    v.get(key)
}

/// The digit `d` as a character.
pub open spec fn digit(d: nat) -> char {
    if d == 0 {
        '0'
    } else if d == 1 {
        '1'
    } else if d == 2 {
        '2'
    } else if d == 3 {
        '3'
    } else if d == 4 {
        '4'
    } else if d == 5 {
        '5'
    } else if d == 6 {
        '6'
    } else if d == 7 {
        '7'
    } else if d == 8 {
        '8'
    } else {
        '9'
    }
}

/// `n` written in decimal digits, with no sign and no leading zero.
pub open spec fn decimal(n: nat) -> Seq<char>
    decreases n,
{
    if n < 10 {
        seq![digit(n)]
    } else {
        decimal(n / 10).push(digit(n % 10))
    }
}

/// The key under which layer `i` stands: `layer0`, `layer1`, and so on.
pub open spec fn layer_name(i: nat) -> Seq<char> {
    seq!['l', 'a', 'y', 'e', 'r'] + decimal(i)
}

/// `format!` with `"layer{}"` and an unsigned integer. Believed: std
/// prints the integer in decimal digits, with no sign and no leading zero.
#[verifier::external_body]
pub(crate) fn layer_key(i: usize) -> (r: String)
    ensures
        r@ == layer_name(i as nat),
{
    format!("layer{}", i)
}

/// `c` is an array whose items are arrays.
pub open spec fn is_array_of_arrays(c: Content) -> bool {
    &&& c is Array
    &&& forall|i: int| 0 <= i < c->Array_0.len() ==> (#[trigger] c->Array_0[i]) is Array
}

/// Number of items of row `i` of an array of arrays.
pub open spec fn row_len(c: Content, i: int) -> nat {
    c->Array_0[i]->Array_0.len()
}

/// Item `j` of row `i` of an array of arrays.
pub open spec fn item(c: Content, i: int, j: int) -> Content {
    c->Array_0[i]->Array_0[j]
}

/// `c` is an array of arrays of integers that fit in 32 bits unsigned.
pub open spec fn is_position_rows(c: Content) -> bool {
    &&& is_array_of_arrays(c)
    &&& forall|i: int, j: int|
        0 <= i < c->Array_0.len() && 0 <= j < row_len(c, i) ==> {
            &&& (#[trigger] item(c, i, j)) is Integer
            &&& 0 <= item(c, i, j)->Integer_0 <= 0xFFFF_FFFF
        }
}

/// The integers of an array of arrays of integers, as positions.
pub open spec fn position_rows(c: Content) -> Seq<Seq<u32>> {
    Seq::new(
        c->Array_0.len(),
        |i: int| Seq::new(row_len(c, i), |j: int| item(c, i, j)->Integer_0 as u32),
    )
}

/// `c` is an array of arrays of floats.
pub open spec fn is_float_rows(c: Content) -> bool {
    &&& is_array_of_arrays(c)
    &&& forall|i: int, j: int|
        0 <= i < c->Array_0.len() && 0 <= j < row_len(c, i) ==> (#[trigger] item(c, i, j)) is Float
}

/// The bits of the floats of an array of arrays of floats.
pub open spec fn float_rows(c: Content) -> Seq<Seq<u64>> {
    Seq::new(c->Array_0.len(), |i: int| Seq::new(row_len(c, i), |j: int| item(c, i, j)->Float_0))
}

/// The entry of the table `c` under `key`, if `c` is a table that has one.
pub open spec fn entry(c: Content, key: Seq<char>) -> Option<Content> {
    match c {
        Content::Table(entries) => if entries.contains_key(key) {
            Some(entries[key])
        } else {
            None
        },
        _ => None,
    }
}

/// The rows of a vector of vectors.
pub open spec fn rows_of<T>(v: Seq<Vec<T>>) -> Seq<Seq<T>> {
    Seq::new(v.len(), |i: int| v[i]@)
}

/// Parse a TOML document.
pub fn read_toml(text: &str) -> (r: Result<toml::Value, ConfigError>)
    ensures
        match r {
            Ok(v) => parsed(text@) == Some(content(v)),
            Err(e) => e == ConfigError::Syntax && parsed(text@) is None,
        },
{
    match parse(text) {
        Ok(v) => Ok(v),
        Err(_) => Err(ConfigError::Syntax),
    }
}

/// The positions in an array of arrays of integers. Fails unless `v` is
/// such an array and every integer fits in 32 bits unsigned.
pub fn value_array_arrays(v: &toml::Value) -> (r: Result<Vec<Vec<u32>>, ConfigError>)
    ensures
        match r {
            Ok(rows) => is_position_rows(content(*v)) && rows_of(rows@) == position_rows(
                content(*v),
            ),
            Err(e) => e == ConfigError::BadIndices && !is_position_rows(content(*v)),
        },
{
    let ghost c = content(*v);
    let outer = match items_of(v) {
        Some(outer) => outer,
        None => {
            return Err(ConfigError::BadIndices);
        },
    };
    let mut arrays: Vec<Vec<u32>> = Vec::new();
    let mut i: usize = 0;
    while i < outer.len()
        invariant
            c == content(*v),
            c is Array,
            outer@.len() == c->Array_0.len(),
            forall|k: int| 0 <= k < outer@.len() ==> content(#[trigger] outer@[k]) == c->Array_0[k],
            i <= outer@.len(),
            arrays@.len() == i,
            forall|k: int| 0 <= k < i ==> (#[trigger] c->Array_0[k]) is Array,
            forall|k: int, j: int|
                0 <= k < i && 0 <= j < row_len(c, k) ==> {
                    &&& (#[trigger] item(c, k, j)) is Integer
                    &&& 0 <= item(c, k, j)->Integer_0 <= 0xFFFF_FFFF
                },
            forall|k: int| 0 <= k < i ==> (#[trigger] arrays@[k])@ == position_rows(c)[k],
        decreases outer@.len() - i,
    {
        let inner = match items_of(&outer[i]) {
            Some(inner) => inner,
            None => {
                proof {
                    assert(!(c->Array_0[i as int] is Array));
                }
                return Err(ConfigError::BadIndices);
            },
        };
        let mut array: Vec<u32> = Vec::new();
        let mut j: usize = 0;
        while j < inner.len()
            invariant
                c == content(*v),
                c is Array,
                0 <= i < c->Array_0.len(),
                c->Array_0[i as int] is Array,
                inner@.len() == row_len(c, i as int),
                forall|k: int|
                    0 <= k < inner@.len() ==> content(#[trigger] inner@[k]) == item(c, i as int, k),
                j <= inner@.len(),
                array@.len() == j,
                forall|k: int|
                    0 <= k < j ==> {
                        &&& (#[trigger] item(c, i as int, k)) is Integer
                        &&& 0 <= item(c, i as int, k)->Integer_0 <= 0xFFFF_FFFF
                        &&& array@[k] == item(c, i as int, k)->Integer_0 as u32
                    },
            decreases inner@.len() - j,
        {
            let integer = match integer_of(&inner[j]) {
                Some(integer) => integer,
                None => {
                    proof {
                        assert(!(item(c, i as int, j as int) is Integer));
                    }
                    return Err(ConfigError::BadIndices);
                },
            };
            if integer < 0 || integer > 0xFFFF_FFFF {
                proof {
                    assert(item(c, i as int, j as int) == Content::Integer(integer));
                }
                return Err(ConfigError::BadIndices);
            }
            array.push(integer as u32);
            j += 1;
        }
        proof {
            assert(array@ =~= position_rows(c)[i as int]);
        }
        arrays.push(array);
        i += 1;
    }
    proof {
        assert(rows_of(arrays@) =~= position_rows(c));
    }
    Ok(arrays)
}

/// The bits of the floats in an array of arrays of floats. Fails, naming
/// the layer `layer`, unless `v` is such an array.
pub fn value_array_arrays_float(v: &toml::Value, layer: usize) -> (r: Result<
    Vec<Vec<u64>>,
    ConfigError,
>)
    ensures
        match r {
            Ok(rows) => is_float_rows(content(*v)) && rows_of(rows@) == float_rows(content(*v)),
            Err(e) => e == (ConfigError::BadLayer { layer }) && !is_float_rows(content(*v)),
        },
{
    let ghost c = content(*v);
    let outer = match items_of(v) {
        Some(outer) => outer,
        None => {
            return Err(ConfigError::BadLayer { layer });
        },
    };
    let mut arrays: Vec<Vec<u64>> = Vec::new();
    let mut i: usize = 0;
    while i < outer.len()
        invariant
            c == content(*v),
            c is Array,
            outer@.len() == c->Array_0.len(),
            forall|k: int| 0 <= k < outer@.len() ==> content(#[trigger] outer@[k]) == c->Array_0[k],
            i <= outer@.len(),
            arrays@.len() == i,
            forall|k: int| 0 <= k < i ==> (#[trigger] c->Array_0[k]) is Array,
            forall|k: int, j: int|
                0 <= k < i && 0 <= j < row_len(c, k) ==> (#[trigger] item(c, k, j)) is Float,
            forall|k: int| 0 <= k < i ==> (#[trigger] arrays@[k])@ == float_rows(c)[k],
        decreases outer@.len() - i,
    {
        let inner = match items_of(&outer[i]) {
            Some(inner) => inner,
            None => {
                proof {
                    assert(!(c->Array_0[i as int] is Array));
                }
                return Err(ConfigError::BadLayer { layer });
            },
        };
        let mut array: Vec<u64> = Vec::new();
        let mut j: usize = 0;
        while j < inner.len()
            invariant
                c == content(*v),
                c is Array,
                0 <= i < c->Array_0.len(),
                c->Array_0[i as int] is Array,
                inner@.len() == row_len(c, i as int),
                forall|k: int|
                    0 <= k < inner@.len() ==> content(#[trigger] inner@[k]) == item(c, i as int, k),
                j <= inner@.len(),
                array@.len() == j,
                forall|k: int|
                    0 <= k < j ==> {
                        &&& (#[trigger] item(c, i as int, k)) is Float
                        &&& array@[k] == item(c, i as int, k)->Float_0
                    },
            decreases inner@.len() - j,
        {
            let bits = match float_bits_of(&inner[j]) {
                Some(bits) => bits,
                None => {
                    proof {
                        assert(!(item(c, i as int, j as int) is Float));
                    }
                    return Err(ConfigError::BadLayer { layer });
                },
            };
            array.push(bits);
            j += 1;
        }
        proof {
            assert(array@ =~= float_rows(c)[i as int]);
        }
        arrays.push(array);
        i += 1;
    }
    proof {
        assert(rows_of(arrays@) =~= float_rows(c));
    }
    Ok(arrays)
}

} // verus!
