//! The metadata descriptor of a pack: reading the declared formats and overlays
//! of an input, and rendering the descriptor of the output.
use vstd::prelude::*;
use serde_json::Value;
use crate::json::{
    JsonModel, NumberModel, field, json_of, json_parse, json_text, models, parse_json, json_get,
    json_as_u64, json_as_str, json_clone, json_object, json_insert, json_unsigned, json_string,
    json_array, json_to_text,
};

verus! {

/// The conventional name of the descriptor entry.
pub const DESCRIPTOR_NAME: &'static str = "pack.mcmeta";

/// Outputs whose lowest supported format is below this use the legacy descriptor shape.
pub const LEGACY_FORMAT_THRESHOLD: u32 = 65;

/// The version that the default description names.
pub const TOOL_VERSION: &'static str = "0.1.0";

pub open spec fn is_digit(c: char) -> bool {
    '0' <= c && c <= '9'
}

pub open spec fn all_digits(d: Seq<char>) -> bool {
    forall|i: int| 0 <= i < d.len() ==> is_digit(#[trigger] d[i])
}

/// The text without its leading `+`, if it has one.
pub open spec fn without_plus(s: Seq<char>) -> Seq<char> {
    if s.len() > 0 && s[0] == '+' {
        s.drop_first()
    } else {
        s
    }
}

/// The value of a run of decimal digits.
pub open spec fn digits_value(s: Seq<char>) -> nat
    decreases s.len(),
{
    if s.len() == 0 {
        0
    } else {
        digits_value(s.drop_last()) * 10 + (s.last() as nat - '0' as nat) as nat
    }
}

/// The `u32` that the text spells in decimal, with an optional leading `+`, as
/// `str::parse::<u32>` reads it.
pub open spec fn decimal_u32(s: Seq<char>) -> Option<u32> {
    let d = without_plus(s);
    if d.len() > 0 && all_digits(d) && digits_value(d) <= u32::MAX {
        Some(digits_value(d) as u32)
    } else {
        None
    }
}

/// A format number written either as a JSON number or as a numeric string; one
/// that does not fit in 32 bits is none.
pub open spec fn number_of(m: JsonModel) -> Option<u32> {
    match m {
        JsonModel::Number(NumberModel::Unsigned(n)) => if n <= u32::MAX {
            Some(n as u32)
        } else {
            None
        },
        JsonModel::Text(s) => decimal_u32(s),
        _ => None,
    }
}

pub open spec fn number_in(m: Option<JsonModel>) -> Option<u32> {
    match m {
        Some(x) => number_of(x),
        None => None,
    }
}

/// The declared pack format and explicit max format of a descriptor. They are read
/// under `pack` (`pack_format`; `max_format`, which `supported_formats.max_inclusive`
/// overrides), falling back to top-level fields. Without a pack format there is no
/// finding.
pub open spec fn pack_formats_of(m: JsonModel) -> Option<(u32, Option<u32>)> {
    let pack = field(m, "pack"@);
    let nested_format = match pack {
        Some(p) => number_in(field(p, "pack_format"@)),
        None => None,
    };
    let nested_max = match pack {
        Some(p) => {
            let explicit = number_in(field(p, "max_format"@));
            match field(p, "supported_formats"@) {
                Some(sf) => match number_in(field(sf, "max_inclusive"@)) {
                    Some(n) => Some(n),
                    None => explicit,
                },
                None => explicit,
            }
        },
        None => None,
    };
    let format = if nested_format is Some {
        nested_format
    } else {
        number_in(field(m, "pack_format"@))
    };
    let max = if nested_max is Some {
        nested_max
    } else {
        number_in(field(m, "max_format"@))
    };
    match format {
        Some(f) => Some((f, max)),
        None => None,
    }
}

/// Reads a `u32` written in decimal, with an optional leading `+`.
pub fn parse_decimal_u32(s: &str) -> (r: Option<u32>)
    ensures
        r == decimal_u32(s@),
{
    let n = s.unicode_len();
    let start: usize = if n > 0 && s.get_char(0) == '+' {
        1
    } else {
        0
    };
    let ghost d = without_plus(s@);
    assert(d == s@.subrange(start as int, n as int));
    if start >= n {
        return None;
    }
    let mut value: u64 = 0;
    let mut i: usize = start;
    while i < n
        invariant
            start <= i <= n,
            n == s@.len(),
            d == s@.subrange(start as int, n as int),
            d == without_plus(s@),
            forall|j: int| start <= j < i ==> is_digit(#[trigger] s@[j]),
            value == digits_value(s@.subrange(start as int, i as int)),
            value <= u32::MAX,
        decreases n - i,
    {
        let c = s.get_char(i);
        if !('0' <= c && c <= '9') {
            assert(d[i - start] == c);
            assert(!is_digit(d[i - start]));
            proof {
                lemma_not_decimal(s@, d, i - start);
            }
            return None;
        }
        let digit = (c as u32 - '0' as u32) as u64;
        assert(s@.subrange(start as int, i + 1).drop_last() == s@.subrange(start as int, i as int));
        if value * 10 + digit > u32::MAX as u64 {
            proof {
                assert(s@.subrange(start as int, i + 1) =~= d.subrange(0, i + 1 - start));
                lemma_digits_grow(s@.subrange(start as int, i + 1), d);
            }
            return None;
        }
        value = value * 10 + digit;
        i = i + 1;
    }
    assert(s@.subrange(start as int, n as int) == d);
    assert forall|j: int| 0 <= j < d.len() implies is_digit(#[trigger] d[j]) by {
        assert(d[j] == s@[start + j]);
    }
    Some(value as u32)
}

proof fn lemma_not_decimal(s: Seq<char>, d: Seq<char>, k: int)
    requires
        d == without_plus(s),
        0 <= k < d.len(),
        !is_digit(d[k]),
    ensures
        decimal_u32(s) is None,
{
}

/// A run of digits is worth at least any run of digits it starts.
proof fn lemma_digits_grow(p: Seq<char>, d: Seq<char>)
    requires
        p.len() <= d.len(),
        p == d.subrange(0, p.len() as int),
    ensures
        (forall|i: int| 0 <= i < d.len() ==> is_digit(#[trigger] d[i])) ==> digits_value(p)
            <= digits_value(d),
    decreases d.len() - p.len(),
{
    if p.len() < d.len() && (forall|i: int| 0 <= i < d.len() ==> is_digit(#[trigger] d[i])) {
        let q = d.subrange(0, p.len() as int + 1);
        assert(q.drop_last() =~= p);
        let a = digits_value(p);
        assert(a * 10 >= a) by (nonlinear_arith);
        assert(digits_value(q) >= digits_value(p));
        lemma_digits_grow(q, d);
    } else if p.len() == d.len() {
        assert(p =~= d);
    }
}

/// Reads a format number given as a JSON number or as a numeric string.
pub fn number_value(v: &Value) -> (r: Option<u32>)
    ensures
        r == number_of(json_of(*v)),
{
    match json_as_u64(v) {
        Some(n) => if n <= u32::MAX as u64 {
            Some(n as u32)
        } else {
            None
        },
        None => match json_as_str(v) {
            Some(s) => parse_decimal_u32(s),
            None => None,
        },
    }
}

fn number_under(v: &Value, key: &str) -> (r: Option<u32>)
    ensures
        r == number_in(field(json_of(*v), key@)),
{
    match json_get(v, key) {
        Some(x) => number_value(x),
        None => None,
    }
}

/// Reads the declared pack format and explicit max format of a descriptor.
pub fn extract_pack_format_from_mcmeta(v: &Value) -> (r: Option<(u32, Option<u32>)>)
    ensures
        r == pack_formats_of(json_of(*v)),
{
    let mut format: Option<u32> = None;
    let mut max: Option<u32> = None;
    match json_get(v, "pack") {
        Some(pack) => {
            format = number_under(pack, "pack_format");
            max = number_under(pack, "max_format");
            match json_get(pack, "supported_formats") {
                Some(sf) => match number_under(sf, "max_inclusive") {
                    Some(n) => {
                        max = Some(n);
                    },
                    None => {},
                },
                None => {},
            }
        },
        None => {},
    }
    if format.is_none() {
        format = number_under(v, "pack_format");
    }
    if max.is_none() {
        max = number_under(v, "max_format");
    }
    match format {
        Some(f) => Some((f, max)),
        None => None,
    }
}

/// What the descriptor of one input declares.
pub struct Finding {
    pub pack_format: u32,
    pub max_format: Option<u32>,
    /// The `overlays` block, when the descriptor has one.
    pub overlays: Option<Value>,
}

/// The finding that a descriptor gives: its formats, and its `overlays` block.
pub open spec fn finding_matches(f: Option<Finding>, m: JsonModel) -> bool {
    match pack_formats_of(m) {
        None => f is None,
        Some((pf, mf)) => f matches Some(x) && x.pack_format == pf && x.max_format == mf && match field(
            m,
            "overlays"@,
        ) {
            Some(o) => x.overlays matches Some(ov) && json_of(ov) == o,
            None => x.overlays is None,
        },
    }
}

/// The finding of a parsed descriptor.
pub fn finding_from_json(v: &Value) -> (r: Option<Finding>)
    ensures
        finding_matches(r, json_of(*v)),
{
    match extract_pack_format_from_mcmeta(v) {
        Some((pf, mf)) => {
            let overlays = match json_get(v, "overlays") {
                Some(o) => Some(json_clone(o)),
                None => None,
            };
            Some(Finding { pack_format: pf, max_format: mf, overlays })
        },
        None => None,
    }
}

/// The finding of a descriptor given as bytes; none where they are not JSON.
pub fn peek_descriptor(text: &[u8]) -> (r: Option<Finding>)
    ensures
        match json_parse(text@) {
            Some(m) => finding_matches(r, m),
            None => r is None,
        },
{
    match parse_json(text) {
        Some(v) => finding_from_json(&v),
        None => None,
    }
}

/// The declared formats of a descriptor given as bytes; none where they are not JSON.
pub fn descriptor_formats(text: &[u8]) -> (r: Option<(u32, Option<u32>)>)
    ensures
        r == match json_parse(text@) {
            Some(m) => pack_formats_of(m),
            None => None,
        },
{
    match parse_json(text) {
        Some(v) => extract_pack_format_from_mcmeta(&v),
        None => None,
    }
}

pub open spec fn num(n: u32) -> JsonModel {
    JsonModel::Number(NumberModel::Unsigned(n as u64))
}

pub open spec fn num_array(s: Seq<u32>) -> JsonModel {
    JsonModel::Array(s.map_values(|n: u32| num(n)))
}

/// The description written when none is configured.
pub open spec fn default_description() -> Seq<char> {
    "Made with Rust API: resource_merger:"@ + TOOL_VERSION@
}

/// The `pack` object of the output descriptor. Below the legacy threshold it keeps
/// `pack_format` and the `supported_formats` array beside the min and max formats.
pub open spec fn pack_object(
    pack_format: u32,
    supported: Seq<u32>,
    description: Seq<char>,
    max_format: u32,
) -> JsonModel {
    let min_format = if supported.len() > 0 {
        supported[0]
    } else {
        pack_format
    };
    if min_format < LEGACY_FORMAT_THRESHOLD {
        JsonModel::Object(
            Map::empty().insert("pack_format"@, num(pack_format)).insert(
                "min_format"@,
                num(min_format),
            ).insert("max_format"@, num(max_format)).insert(
                "description"@,
                JsonModel::Text(description),
            ).insert("supported_formats"@, num_array(supported)),
        )
    } else {
        JsonModel::Object(
            Map::empty().insert("min_format"@, num(min_format)).insert(
                "max_format"@,
                num(max_format),
            ).insert("description"@, JsonModel::Text(description)),
        )
    }
}

/// The output descriptor: the `pack` object, and the merged overlays when there are any.
pub open spec fn descriptor_model(
    pack_format: u32,
    supported: Seq<u32>,
    description: Seq<char>,
    max_format: u32,
    overlays: Option<JsonModel>,
) -> JsonModel {
    let top = Map::empty().insert(
        "pack"@,
        pack_object(pack_format, supported, description, max_format),
    );
    match overlays {
        Some(o) => JsonModel::Object(top.insert("overlays"@, o)),
        None => JsonModel::Object(top),
    }
}

pub open spec fn description_or_default(description: Option<Seq<char>>) -> Seq<char> {
    match description {
        Some(d) => d,
        None => default_description(),
    }
}

fn number_array(s: &Vec<u32>) -> (r: Value)
    ensures
        json_of(r) == num_array(s@),
{
    let mut items: Vec<Value> = Vec::new();
    let mut i: usize = 0;
    while i < s.len()
        invariant
            i <= s@.len(),
            models(items@) == s@.take(i as int).map_values(|n: u32| num(n)),
        decreases s@.len() - i,
    {
        let x = json_unsigned(s[i] as u64);
        let ghost before = items@;
        items.push(x);
        proof {
            assert(models(items@) =~= models(before).push(json_of(x)));
            assert(s@.take(i as int + 1).map_values(|n: u32| num(n)) =~= s@.take(i as int).map_values(
                |n: u32| num(n),
            ).push(num(s@[i as int])));
        }
        i = i + 1;
    }
    assert(s@.take(s@.len() as int) == s@);
    json_array(items)
}

fn text_value(s: &str) -> (r: Value)
    ensures
        json_of(r) == JsonModel::Text(s@),
{
    json_string(String::from_str(s))
}

/// Renders the output descriptor as compact JSON.
pub fn make_pack_mcmeta(
    pack_format: u32,
    supported: &Vec<u32>,
    description: Option<&str>,
    max_format: u32,
    overlays: Option<&Value>,
) -> (r: String)
    ensures
        r@ == json_text(
            descriptor_model(
                pack_format,
                supported@,
                description_or_default(
                    match description {
                        Some(d) => Some(d@),
                        None => None,
                    },
                ),
                max_format,
                match overlays {
                    Some(o) => Some(json_of(*o)),
                    None => None,
                },
            ),
        ),
{
    let desc = match description {
        Some(d) => String::from_str(d),
        None => {
            let mut d = String::from_str("Made with Rust API: resource_merger:");
            d.append(TOOL_VERSION);
            d
        },
    };
    let min_format = if supported.len() > 0 {
        supported[0]
    } else {
        pack_format
    };
    let mut pack = json_object();
    if min_format < LEGACY_FORMAT_THRESHOLD {
        json_insert(&mut pack, String::from_str("pack_format"), json_unsigned(pack_format as u64));
        json_insert(&mut pack, String::from_str("min_format"), json_unsigned(min_format as u64));
        json_insert(&mut pack, String::from_str("max_format"), json_unsigned(max_format as u64));
        json_insert(&mut pack, String::from_str("description"), json_string(desc));
        json_insert(&mut pack, String::from_str("supported_formats"), number_array(supported));
    } else {
        json_insert(&mut pack, String::from_str("min_format"), json_unsigned(min_format as u64));
        json_insert(&mut pack, String::from_str("max_format"), json_unsigned(max_format as u64));
        json_insert(&mut pack, String::from_str("description"), json_string(desc));
    }
    let mut meta = json_object();
    json_insert(&mut meta, String::from_str("pack"), pack);
    match overlays {
        Some(o) => json_insert(&mut meta, String::from_str("overlays"), json_clone(o)),
        None => {},
    }
    json_to_text(&meta)
}

} // verus!
