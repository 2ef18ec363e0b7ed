use vstd::prelude::*;

verus! {

/// Operand-size class of an instruction: decides how its variant keys are shaped.
#[derive(Debug, Clone, Copy, PartialEq, Eq, Structural)]
pub enum InstructionSize {
    Implied,
    Single,
    RegisterAndData,
}

/// Numeric code of a size class, as written in the generated table.
pub open spec fn size_code_spec(size: InstructionSize) -> u8 {
    match size {
        InstructionSize::Implied => 0,
        InstructionSize::Single => 1,
        InstructionSize::RegisterAndData => 2,
    }
}

/// Numeric code of a size class.
pub fn size_code(size: InstructionSize) -> (r: u8)
    ensures
        r == size_code_spec(size),
{
    match size {
        InstructionSize::Implied => 0,
        InstructionSize::Single => 1,
        InstructionSize::RegisterAndData => 2,
    }
}

/// One instruction definition as read from the input.
#[derive(Debug, Clone, PartialEq, Eq)]
pub struct RawInstructionInfo {
    pub name: String,
    pub size: InstructionSize,
    pub mode_support: Option<String>,
    pub has_byte_variant: Option<bool>,
    pub is_byte_variant: Option<bool>,
}

/// Mathematical view of a definition: absent modes read as none, absent flags as false.
pub struct RawView {
    pub name: Seq<char>,
    pub size: InstructionSize,
    pub modes: Seq<char>,
    pub has_byte: bool,
    pub is_byte: bool,
}

impl View for RawInstructionInfo {
    type V = RawView;

    open spec fn view(&self) -> RawView {
        RawView {
            name: self.name@,
            size: self.size,
            modes: match self.mode_support {
                Some(m) => m@,
                None => Seq::empty(),
            },
            has_byte: self.has_byte_variant == Some(true),
            is_byte: self.is_byte_variant == Some(true),
        }
    }
}

/// The character that marks the name of a byte-width variant.
pub open spec fn byte_marker() -> char {
    'b'
}

/// The key (and label) of the single variant of an implied-size instruction.
pub open spec fn implied_key() -> Seq<char> {
    seq!['M']
}

/// The definition derived for the byte-width form: suffixed name, same size and
/// modes, flagged as a byte variant, never carrying a further byte variant.
pub open spec fn derived_view(d: RawView) -> RawView {
    RawView {
        name: d.name.push(byte_marker()),
        size: d.size,
        modes: d.modes,
        has_byte: false,
        is_byte: true,
    }
}

/// ASCII upper-casing of one character; other characters are kept.
pub open spec fn upper_char(c: char) -> char {
    if 'a' <= c && c <= 'z' {
        ((c as u32) - 32) as char
    } else {
        c
    }
}

/// ASCII upper-casing of a string.
pub open spec fn upper_of(s: Seq<char>) -> Seq<char> {
    Seq::new(s.len(), |i: int| upper_char(s[i]))
}

/// What is resolved for one variant: its key in the opcode map, its label in
/// the reverse table, and the seed string that is hashed.
pub struct VariantSpec {
    pub key: Seq<char>,
    pub label: Seq<char>,
    pub seed: Seq<char>,
}

/// The variant of mode character `c` of an instruction named `name`.
pub open spec fn mode_variant(size: InstructionSize, name: Seq<char>, c: char) -> VariantSpec {
    VariantSpec {
        key: if size == InstructionSize::RegisterAndData {
            seq!['R', c]
        } else {
            seq![c]
        },
        label: seq![c],
        seed: upper_of(name).push(c),
    }
}

/// The variants of a definition, in the order in which they are resolved.
pub open spec fn variants_of(d: RawView) -> Seq<VariantSpec> {
    match d.size {
        InstructionSize::Implied => seq![
            VariantSpec { key: implied_key(), label: implied_key(), seed: upper_of(d.name) },
        ],
        _ => Seq::new(d.modes.len(), |i: int| mode_variant(d.size, d.name, d.modes[i])),
    }
}

/// One variant to resolve, as executable strings.
pub struct Variant {
    pub key: String,
    pub label: String,
    pub seed: String,
}

impl View for Variant {
    type V = VariantSpec;

    open spec fn view(&self) -> VariantSpec {
        VariantSpec { key: self.key@, label: self.label@, seed: self.seed@ }
    }
}

/// Relies on String::push: appends one character.
#[verifier::external_body]
pub(crate) fn push_char(s: &mut String, c: char)
    ensures
        final(s)@ == old(s)@.push(c),
{
    s.push(c)
}

/// A string holding the one character `c`.
fn char_string(c: char) -> (r: String)
    ensures
        r@ == seq![c],
{
    let mut r = String::new();
    push_char(&mut r, c);
    proof {
        assert(r@ == seq![c]);
    }
    r
}

/// ASCII upper-casing of one character.
pub fn to_upper_char(c: char) -> (r: char)
    ensures
        r == upper_char(c),
{
    if 'a' <= c && c <= 'z' {
        let b: u32 = (c as u32) - 32;
        let u: u8 = b as u8;
        proof {
            assert(u as u32 == b);
        }
        u as char
    } else {
        c
    }
}

/// ASCII upper-casing of a string.
pub fn to_upper(s: &str) -> (r: String)
    ensures
        r@ == upper_of(s@),
{
    let mut r = String::new();
    for c in it: s.chars()
        invariant
            it.seq() == s@,
            r@ == upper_of(s@.take(it.index() as int)),
    {
        let u = to_upper_char(c);
        push_char(&mut r, u);
        proof {
            assert(r@ =~= upper_of(s@.take(it.index() + 1)));
        }
    }
    proof {
        assert(s@.take(s@.len() as int) == s@);
    }
    r
}

/// The variants that a definition needs, in resolution order: one per mode
/// character, or the single implied variant.
pub fn expand(info: &RawInstructionInfo) -> (r: Vec<Variant>)
    ensures
        r@.len() == variants_of(info@).len(),
        forall|i: int| 0 <= i < r@.len() ==> #[trigger] r@[i]@ == variants_of(info@)[i],
{
    let upper = to_upper(info.name.as_str());
    let mut r: Vec<Variant> = Vec::new();
    match info.size {
        InstructionSize::Implied => {
            let key = char_string('M');
            let label = char_string('M');
            r.push(Variant { key, label, seed: upper });
            return r;
        },
        _ => {},
    }
    let modes = match &info.mode_support {
        Some(m) => m.clone(),
        None => String::new(),
    };
    assert(modes@ == info@.modes);
    for c in it: modes.as_str().chars()
        invariant
            it.seq() == modes@,
            modes@ == info@.modes,
            upper@ == upper_of(info@.name),
            info.size != InstructionSize::Implied,
            r@.len() == it.index(),
            forall|i: int| 0 <= i < r@.len() ==> #[trigger] r@[i]@ == variants_of(info@)[i],
    {
        let key = match info.size {
            InstructionSize::RegisterAndData => {
                let mut k = char_string('R');
                push_char(&mut k, c);
                k
            },
            _ => char_string(c),
        };
        let label = char_string(c);
        let mut seed = upper.clone();
        push_char(&mut seed, c);
        proof {
            assert(key@ =~= mode_variant(info.size, info@.name, c).key);
        }
        r.push(Variant { key, label, seed });
    }
    r
}

} // verus!
