//! The Zorsh constructor vocabulary: the source text of each schema
//! constructor that generated code calls.

use crate::text::{decimal, decimal_text};
use vstd::prelude::*;

verus! {

pub open spec fn unit_code() -> Seq<char> {
    "b.unit()"@
}

pub open spec fn bool_code() -> Seq<char> {
    "b.bool()"@
}

pub open spec fn u8_code() -> Seq<char> {
    "b.u8()"@
}

pub open spec fn u16_code() -> Seq<char> {
    "b.u16()"@
}

pub open spec fn u32_code() -> Seq<char> {
    "b.u32()"@
}

pub open spec fn u64_code() -> Seq<char> {
    "b.u64()"@
}

pub open spec fn u128_code() -> Seq<char> {
    "b.u128()"@
}

pub open spec fn i8_code() -> Seq<char> {
    "b.i8()"@
}

pub open spec fn i16_code() -> Seq<char> {
    "b.i16()"@
}

pub open spec fn i32_code() -> Seq<char> {
    "b.i32()"@
}

pub open spec fn i64_code() -> Seq<char> {
    "b.i64()"@
}

pub open spec fn i128_code() -> Seq<char> {
    "b.i128()"@
}

pub open spec fn float32_code() -> Seq<char> {
    "b.f32()"@
}

pub open spec fn float64_code() -> Seq<char> {
    "b.f64()"@
}

pub open spec fn string_code() -> Seq<char> {
    "b.string()"@
}

pub open spec fn array_code(element: Seq<char>, length: u64) -> Seq<char> {
    "b.array("@ + element + ", "@ + decimal(length as nat) + ")"@
}

pub open spec fn vec_code(element: Seq<char>) -> Seq<char> {
    "b.vec("@ + element + ")"@
}

pub open spec fn struct_code(fields: Seq<char>) -> Seq<char> {
    "b.struct({"@ + fields + "\n})"@
}

pub open spec fn tuple_code(fields: Seq<char>) -> Seq<char> {
    "b.tuple(["@ + fields + "])"@
}

pub open spec fn enum_code(variants: Seq<char>) -> Seq<char> {
    "b.enum({"@ + variants + "\n})"@
}

pub open spec fn option_code(element: Seq<char>) -> Seq<char> {
    "b.option("@ + element + ")"@
}

pub open spec fn hash_set_code(element: Seq<char>) -> Seq<char> {
    "b.hashSet("@ + element + ")"@
}

pub open spec fn hash_map_code(key: Seq<char>, value: Seq<char>) -> Seq<char> {
    "b.hashMap("@ + key + ", "@ + value + ")"@
}

/// One line of a struct or enum body: `label: code,` on a line of its own,
/// indented by two spaces, or by four inside an enum's variant.
pub open spec fn entry_code(nested: bool, label: Seq<char>, code: Seq<char>) -> Seq<char> {
    (if nested {
        "\n    "@
    } else {
        "\n  "@
    }) + label + ": "@ + code + ","@
}

/// The lines of a struct or enum body: one entry for each label and its code.
pub open spec fn entries_text(nested: bool, labels: Seq<Seq<char>>, codes: Seq<Seq<char>>) -> Seq<
    char,
>
    decreases codes.len(),
{
    if codes.len() == 0 {
        Seq::<char>::empty()
    } else {
        entries_text(nested, labels.drop_last(), codes.drop_last()) + entry_code(
            nested,
            labels.last(),
            codes.last(),
        )
    }
}

/// The codes in order, each followed by a comma and a space.
pub open spec fn listed_text(codes: Seq<Seq<char>>) -> Seq<char>
    decreases codes.len(),
{
    if codes.len() == 0 {
        Seq::<char>::empty()
    } else {
        listed_text(codes.drop_last()) + codes.last() + ", "@
    }
}

/// The codes in order, with a comma and a space between neighbours.
pub open spec fn joined_text(codes: Seq<Seq<char>>) -> Seq<char>
    decreases codes.len(),
{
    if codes.len() == 0 {
        Seq::<char>::empty()
    } else if codes.len() == 1 {
        codes[0]
    } else {
        joined_text(codes.drop_last()) + ", "@ + codes.last()
    }
}

/// The constructors of the Zorsh schema library, as source text.
pub trait Zorsh {
    fn unit(&self) -> (r: String)
        ensures
            r@ == unit_code(),
    ;

    fn bool(&self) -> (r: String)
        ensures
            r@ == bool_code(),
    ;

    fn u8(&self) -> (r: String)
        ensures
            r@ == u8_code(),
    ;

    fn u16(&self) -> (r: String)
        ensures
            r@ == u16_code(),
    ;

    fn u32(&self) -> (r: String)
        ensures
            r@ == u32_code(),
    ;

    fn u64(&self) -> (r: String)
        ensures
            r@ == u64_code(),
    ;

    fn u128(&self) -> (r: String)
        ensures
            r@ == u128_code(),
    ;

    fn i8(&self) -> (r: String)
        ensures
            r@ == i8_code(),
    ;

    fn i16(&self) -> (r: String)
        ensures
            r@ == i16_code(),
    ;

    fn i32(&self) -> (r: String)
        ensures
            r@ == i32_code(),
    ;

    fn i64(&self) -> (r: String)
        ensures
            r@ == i64_code(),
    ;

    fn i128(&self) -> (r: String)
        ensures
            r@ == i128_code(),
    ;

    fn float32(&self) -> (r: String)
        ensures
            r@ == float32_code(),
    ;

    fn float64(&self) -> (r: String)
        ensures
            r@ == float64_code(),
    ;

    fn string(&self) -> (r: String)
        ensures
            r@ == string_code(),
    ;

    fn array(&self, element: String, length: u64) -> (r: String)
        ensures
            r@ == array_code(element@, length),
    ;

    fn vec(&self, element: String) -> (r: String)
        ensures
            r@ == vec_code(element@),
    ;

    fn struct_(&self, fields: String) -> (r: String)
        ensures
            r@ == struct_code(fields@),
    ;

    fn tuple(&self, fields: String) -> (r: String)
        ensures
            r@ == tuple_code(fields@),
    ;

    fn enum_(&self, variants: String) -> (r: String)
        ensures
            r@ == enum_code(variants@),
    ;

    fn option(&self, element: String) -> (r: String)
        ensures
            r@ == option_code(element@),
    ;

    fn hash_set(&self, element: String) -> (r: String)
        ensures
            r@ == hash_set_code(element@),
    ;

    fn hash_map(&self, key: String, value: String) -> (r: String)
        ensures
            r@ == hash_map_code(key@, value@),
    ;
}

/// `open`, then `inner`, then `close`.
pub fn wrapped(open: &str, inner: &str, close: &str) -> (r: String)
    ensures
        r@ == open@ + inner@ + close@,
{
    let mut r = String::from_str(open);
    r.append(inner);
    r.append(close);
    r
}

/// The text of an array constructor.
pub fn array_text(element: &str, length: u64) -> (r: String)
    ensures
        r@ == array_code(element@, length),
{
    let mut r = String::from_str("b.array(");
    r.append(element);
    r.append(", ");
    let digits = decimal_text(length);
    r.append(digits.as_str());
    r.append(")");
    r
}

/// The text of a map constructor.
pub fn hash_map_text(key: &str, value: &str) -> (r: String)
    ensures
        r@ == hash_map_code(key@, value@),
{
    let mut r = String::from_str("b.hashMap(");
    r.append(key);
    r.append(", ");
    r.append(value);
    r.append(")");
    r
}

/// The lines of a struct or enum body.
pub fn entries(nested: bool, labels: &Vec<String>, codes: &Vec<String>) -> (r: String)
    requires
        labels.len() == codes.len(),
    ensures
        r@ == entries_text(nested, labels.deep_view(), codes.deep_view()),
{
    let ghost all_labels = labels.deep_view();
    let ghost all_codes = codes.deep_view();
    let mut r = String::new();
    let mut i: usize = 0;
    while i < codes.len()
        invariant
            i <= codes.len(),
            labels.len() == codes.len(),
            all_labels == labels.deep_view(),
            all_codes == codes.deep_view(),
            r@ == entries_text(nested, all_labels.take(i as int), all_codes.take(i as int)),
        decreases codes.len() - i,
    {
        proof {
            assert(all_labels.take(i + 1).drop_last() =~= all_labels.take(i as int));
            assert(all_codes.take(i + 1).drop_last() =~= all_codes.take(i as int));
            assert(all_labels.take(i + 1).last() == labels@[i as int]@);
            assert(all_codes.take(i + 1).last() == codes@[i as int]@);
        }
        if nested {
            r.append("\n    ");
        } else {
            r.append("\n  ");
        }
        r.append(labels[i].as_str());
        r.append(": ");
        r.append(codes[i].as_str());
        r.append(",");
        proof {
            let before = entries_text(nested, all_labels.take(i as int), all_codes.take(i as int));
            let indent = if nested {
                "\n    "@
            } else {
                "\n  "@
            };
            assert(r@ =~= before + (indent + labels@[i as int]@ + ": "@ + codes@[i as int]@ + ","@));
        }
        i += 1;
    }
    assert(all_labels.take(i as int) =~= all_labels);
    assert(all_codes.take(i as int) =~= all_codes);
    r
}

/// The codes in order, each followed by a comma and a space.
pub fn listed(codes: &Vec<String>) -> (r: String)
    ensures
        r@ == listed_text(codes.deep_view()),
{
    let ghost all_codes = codes.deep_view();
    let mut r = String::new();
    let mut i: usize = 0;
    while i < codes.len()
        invariant
            i <= codes.len(),
            all_codes == codes.deep_view(),
            r@ == listed_text(all_codes.take(i as int)),
        decreases codes.len() - i,
    {
        proof {
            assert(all_codes.take(i + 1).drop_last() =~= all_codes.take(i as int));
            assert(all_codes.take(i + 1).last() == codes@[i as int]@);
        }
        r.append(codes[i].as_str());
        r.append(", ");
        i += 1;
    }
    assert(all_codes.take(i as int) =~= all_codes);
    r
}

/// The codes in order, with a comma and a space between neighbours.
pub fn joined(codes: &Vec<String>) -> (r: String)
    ensures
        r@ == joined_text(codes.deep_view()),
{
    let ghost all_codes = codes.deep_view();
    let mut r = String::new();
    let mut i: usize = 0;
    while i < codes.len()
        invariant
            i <= codes.len(),
            all_codes == codes.deep_view(),
            r@ == joined_text(all_codes.take(i as int)),
        decreases codes.len() - i,
    {
        proof {
            assert(all_codes.take(i + 1).drop_last() =~= all_codes.take(i as int));
            assert(all_codes.take(i + 1).last() == codes@[i as int]@);
            assert(all_codes.take(i + 1)[0] == all_codes[0]);
        }
        if i > 0 {
            r.append(", ");
        }
        r.append(codes[i].as_str());
        proof {
            if i == 0 {
                assert(r@ =~= codes@[0]@);
            }
        }
        i += 1;
    }
    assert(all_codes.take(i as int) =~= all_codes);
    r
}

} // verus!
