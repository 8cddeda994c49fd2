//! The generated files of the output: the default icon and the provenance listing.
use vstd::prelude::*;
use crate::descriptor::TOOL_VERSION;
use crate::sources::PackInput;

verus! {

/// A 64x64 PNG image written as the pack icon.
pub const DEFAULT_ICON: [u8; 165] = [
    0x89, 0x50, 0x4e, 0x47, 0x0d, 0x0a, 0x1a, 0x0a, 0x00, 0x00, 0x00, 0x0d,
    0x49, 0x48, 0x44, 0x52, 0x00, 0x00, 0x00, 0x40, 0x00, 0x00, 0x00, 0x40,
    0x08, 0x02, 0x00, 0x00, 0x00, 0x25, 0x0b, 0xe6, 0x89, 0x00, 0x00, 0x00,
    0x6c, 0x49, 0x44, 0x41, 0x54, 0x78, 0xda, 0xed, 0xd7, 0xa1, 0x0d, 0x00,
    0x20, 0x0c, 0x45, 0x41, 0xe6, 0x42, 0xb0, 0x05, 0x8a, 0x49, 0xd8, 0x81,
    0xa1, 0x59, 0xa0, 0xa8, 0x1a, 0x08, 0x97, 0x20, 0x2b, 0x38, 0xf5, 0xf2,
    0xcb, 0x58, 0x2d, 0x7c, 0xb3, 0xd7, 0xf0, 0xdd, 0x76, 0x5f, 0x00, 0x00,
    0x00, 0x00, 0x00, 0x52, 0x80, 0x57, 0x3e, 0x7a, 0xba, 0x07, 0x00, 0x00,
    0x00, 0x00, 0xc8, 0x01, 0x94, 0x18, 0x00, 0x00, 0x00, 0xc0, 0x1e, 0x50,
    0x62, 0x00, 0x00, 0x00, 0x00, 0x7b, 0x40, 0x89, 0x01, 0x00, 0x00, 0x00,
    0xec, 0x01, 0x25, 0x06, 0x00, 0x00, 0x00, 0xb0, 0x07, 0x94, 0x18, 0x00,
    0x00, 0x00, 0xc0, 0x1e, 0x50, 0x62, 0x00, 0x00, 0x00, 0x80, 0x6f, 0x00,
    0x1b, 0xac, 0xb8, 0x69, 0x00, 0x1f, 0xe1, 0x02, 0x5f, 0x00, 0x00, 0x00,
    0x00, 0x49, 0x45, 0x4e, 0x44, 0xae, 0x42, 0x60, 0x82,
];

/// The bytes of the default pack icon.
pub fn default_pack_png_bytes() -> (r: Vec<u8>)
    ensures
        r@ == DEFAULT_ICON@,
{
    let mut v: Vec<u8> = Vec::new();
    let mut i: usize = 0;
    while i < 165
        invariant
            i <= 165,
            v@ == DEFAULT_ICON@.take(i as int),
        decreases 165 - i,
    {
        v.push(DEFAULT_ICON[i]);
        assert(DEFAULT_ICON@.take(i as int + 1) == DEFAULT_ICON@.take(i as int).push(DEFAULT_ICON@[i as int]));
        i = i + 1;
    }
    assert(DEFAULT_ICON@.take(165) == DEFAULT_ICON@);
    v
}

/// The provenance line of one input.
pub open spec fn readme_line(p: PackInput) -> Seq<char> {
    match p {
        PackInput::Dir(d) => "- Dir: "@ + d.root@ + "\n"@,
        PackInput::ZipFile(z) => "- ZipFile: "@ + z.path@ + "\n"@,
        PackInput::ZipBytes(_) => "- ZipBytes: <in-memory>\n"@,
        PackInput::Url(u) => "- Url: "@ + u.url@ + "\n"@,
    }
}

/// The provenance lines of the inputs, in merge order.
pub open spec fn readme_lines(ps: Seq<PackInput>) -> Seq<char>
    decreases ps.len(),
{
    if ps.len() == 0 {
        Seq::empty()
    } else {
        readme_lines(ps.drop_last()) + readme_line(ps.last())
    }
}

/// The provenance document: a header, one line per input in merge order, and the
/// tool version.
pub open spec fn readme_text(ps: Seq<PackInput>) -> Seq<char> {
    "This resource pack was generated by resource_merger.\n\nInputs used (in order, first -> last):\n"@
        + readme_lines(ps) + "\nGenerated with resource_merger "@ + TOOL_VERSION@
}

/// Writes the provenance document that lists the inputs in merge order.
pub fn make_readme(packs: &[PackInput]) -> (r: String)
    ensures
        r@ == readme_text(packs@),
{
    let mut out = String::from_str(
        "This resource pack was generated by resource_merger.\n\nInputs used (in order, first -> last):\n",
    );
    let ghost head = out@;
    let mut i: usize = 0;
    while i < packs.len()
        invariant
            i <= packs@.len(),
            out@ == head + readme_lines(packs@.take(i as int)),
        decreases packs@.len() - i,
    {
        assert(packs@.take(i as int + 1).drop_last() == packs@.take(i as int));
        match &packs[i] {
            PackInput::Dir(d) => {
                out.append("- Dir: ");
                out.append(d.root.as_str());
                out.append("\n");
            },
            PackInput::ZipFile(z) => {
                out.append("- ZipFile: ");
                out.append(z.path.as_str());
                out.append("\n");
            },
            PackInput::ZipBytes(_) => {
                out.append("- ZipBytes: <in-memory>\n");
            },
            PackInput::Url(u) => {
                out.append("- Url: ");
                out.append(u.url.as_str());
                out.append("\n");
            },
        }
        i = i + 1;
    }
    assert(packs@.take(packs@.len() as int) == packs@);
    out.append("\nGenerated with resource_merger ");
    out.append(TOOL_VERSION);
    out
}

} // verus!
