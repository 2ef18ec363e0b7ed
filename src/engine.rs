use vstd::prelude::*;
use crate::resolver::{AssignError, resolve, resolve_spec, probe_opcode};
use crate::laws::{lemma_global_uniqueness, opcodes_unique};
use crate::expander::{
    RawInstructionInfo, RawView, Variant, VariantSpec, derived_view, expand,
    push_char, size_code, size_code_spec, variants_of,
};

verus! {

/// One generated instruction: its name, size code, opcode per variant key, and
/// whether it is a byte-width variant.
#[derive(Clone, Debug, PartialEq, Eq)]
pub struct InstructionInfo {
    pub name: String,
    pub size: u8,
    pub opcode: Vec<(String, u8)>,
    pub byte: bool,
}

/// The finished output: the reverse table (opcode to label, in assignment
/// order) and the generated instructions.
#[derive(Clone, Debug, PartialEq, Eq)]
pub struct InstructionInfoFile {
    pub opcodes: Vec<(u8, String)>,
    pub info: Vec<InstructionInfo>,
}

/// Mathematical view of a generated instruction.
pub struct InfoView {
    pub name: Seq<char>,
    pub size: u8,
    pub opcode: Seq<(Seq<char>, u8)>,
    pub byte: bool,
}

/// View of an opcode map.
pub open spec fn map_view(m: Seq<(String, u8)>) -> Seq<(Seq<char>, u8)> {
    Seq::new(m.len(), |i: int| (m[i].0@, m[i].1))
}

/// View of a reverse table.
pub open spec fn table_view(t: Seq<(u8, String)>) -> Seq<(u8, Seq<char>)> {
    Seq::new(t.len(), |i: int| (t[i].0, t[i].1@))
}

impl View for InstructionInfo {
    type V = InfoView;

    open spec fn view(&self) -> InfoView {
        InfoView { name: self.name@, size: self.size, opcode: map_view(self.opcode@), byte: self.byte }
    }
}

/// Views of a sequence of generated instructions.
pub open spec fn infos_view(v: Seq<InstructionInfo>) -> Seq<InfoView> {
    Seq::new(v.len(), |i: int| v[i]@)
}

/// Views of a sequence of definitions.
pub open spec fn raw_views(v: Seq<RawInstructionInfo>) -> Seq<RawView> {
    Seq::new(v.len(), |i: int| v[i]@)
}

/// Views of a sequence of variants.
pub open spec fn variant_views(v: Seq<Variant>) -> Seq<VariantSpec> {
    Seq::new(v.len(), |i: int| v[i]@)
}

/// Reverse-table label of a variant: `<NAME>|<label>`.
pub open spec fn label_of(name: Seq<char>, label: Seq<char>) -> Seq<char> {
    name.push('|') + label
}

/// Position of the entry with key `k`, searching from the end; -1 if absent.
pub open spec fn key_index(m: Seq<(Seq<char>, u8)>, k: Seq<char>) -> int
    decreases m.len(),
{
    if m.len() == 0 {
        -1
    } else if m.last().0 == k {
        m.len() - 1
    } else {
        key_index(m.drop_last(), k)
    }
}

/// Map insertion on an opcode map: replaces the value of an existing key, or
/// appends a new entry.
pub open spec fn map_put(m: Seq<(Seq<char>, u8)>, k: Seq<char>, v: u8) -> Seq<(Seq<char>, u8)> {
    let i = key_index(m, k);
    if i >= 0 {
        m.update(i, (k, v))
    } else {
        m.push((k, v))
    }
}

/// The global opcode space of a run: opcodes in assignment order, the reverse
/// table, and the instructions generated so far.
pub struct Tables {
    pub used: Seq<u8>,
    pub table: Seq<(u8, Seq<char>)>,
    pub records: Seq<InfoView>,
}

/// Resolves the first `n` variants of instruction `name`, in order, each against
/// the opcodes claimed before it. Gives the extended opcode list and reverse
/// table with the instruction's opcode map, or `None` on exhaustion.
pub open spec fn resolve_variants(
    name: Seq<char>,
    vs: Seq<VariantSpec>,
    n: nat,
    used: Seq<u8>,
    table: Seq<(u8, Seq<char>)>,
) -> Option<(Seq<u8>, Seq<(u8, Seq<char>)>, Seq<(Seq<char>, u8)>)>
    decreases n,
{
    if n == 0 {
        Some((used, table, Seq::empty()))
    } else {
        match resolve_variants(name, vs, (n - 1) as nat, used, table) {
            None => None,
            Some((u, t, m)) => {
                let v = vs[n - 1];
                match resolve_spec(v.seed, u) {
                    None => None,
                    Some(k) => {
                        let b = probe_opcode(v.seed, k);
                        Some((u.push(b), t.push((b, label_of(name, v.label))), map_put(m, v.key, b)))
                    },
                }
            },
        }
    }
}

/// The record generated for one definition, without its byte-width variant.
pub open spec fn record_spec(d: RawView, used: Seq<u8>, table: Seq<(u8, Seq<char>)>) -> Option<
    (Seq<u8>, Seq<(u8, Seq<char>)>, InfoView),
> {
    let vs = variants_of(d);
    match resolve_variants(d.name, vs, vs.len(), used, table) {
        None => None,
        Some((u, t, m)) => Some(
            (u, t, InfoView { name: d.name, size: size_code_spec(d.size), opcode: m, byte: d.is_byte }),
        ),
    }
}

/// Processing of one definition: its own variants first, then those of its
/// byte-width variant if it declares one. The derived record is emitted before
/// the record of the definition it comes from.
pub open spec fn create_spec(d: RawView, s: Tables) -> Option<Tables> {
    match record_spec(d, s.used, s.table) {
        None => None,
        Some((u, t, rec)) => if d.has_byte {
            match record_spec(derived_view(d), u, t) {
                None => None,
                Some((u2, t2, rec2)) => Some(
                    Tables { used: u2, table: t2, records: s.records.push(rec2).push(rec) },
                ),
            }
        } else {
            Some(Tables { used: u, table: t, records: s.records.push(rec) })
        },
    }
}

/// The state at the start of a run.
pub open spec fn empty_tables() -> Tables {
    Tables { used: Seq::empty(), table: Seq::empty(), records: Seq::empty() }
}

/// The state after the first `n` definitions, processed in order.
pub open spec fn run_spec(defs: Seq<RawView>, n: nat) -> Option<Tables>
    decreases n,
{
    if n == 0 {
        Some(empty_tables())
    } else {
        match run_spec(defs, (n - 1) as nat) {
            None => None,
            Some(s) => create_spec(defs[n - 1], s),
        }
    }
}

/// The outcome of a whole generation run.
pub open spec fn assign_spec(defs: Seq<RawView>) -> Option<Tables> {
    run_spec(defs, defs.len())
}

proof fn lemma_resolve_variants_none(
    name: Seq<char>,
    vs: Seq<VariantSpec>,
    n: nat,
    m: nat,
    used: Seq<u8>,
    table: Seq<(u8, Seq<char>)>,
)
    requires
        n <= m,
        resolve_variants(name, vs, n, used, table) is None,
    ensures
        resolve_variants(name, vs, m, used, table) is None,
    decreases m - n,
{
    if n < m {
        lemma_resolve_variants_none(name, vs, n, (m - 1) as nat, used, table);
    }
}

impl InstructionInfo {
    /// Builds a generated instruction from its parts.
    pub fn new(name: String, size: u8, opcode: Vec<(String, u8)>, byte: bool) -> (r: Self)
        ensures
            r.name == name,
            r.size == size,
            r.opcode == opcode,
            r.byte == byte,
    {
        InstructionInfo { name, size, opcode, byte }
    }
}

/// Sets the opcode of `key` in `m`, replacing an existing entry of that key.
fn put_opcode(m: &mut Vec<(String, u8)>, key: String, b: u8)
    ensures
        map_view(final(m)@) == map_put(map_view(old(m)@), key@, b),
{
    let ghost mv = map_view(m@);
    let mut i: usize = m.len();
    proof {
        assert(mv.take(i as int) == mv);
    }
    while i > 0
        invariant
            i <= m@.len(),
            m@ == old(m)@,
            mv == map_view(m@),
            key_index(mv, key@) == key_index(mv.take(i as int), key@),
        decreases i,
    {
        proof {
            assert(mv.take(i as int).drop_last() == mv.take(i - 1));
        }
        if m[i - 1].0 == key {
            m[i - 1] = (key, b);
            proof {
                assert(map_view(m@) =~= mv.update(i - 1, (key@, b)));
            }
            return;
        }
        i -= 1;
    }
    m.push((key, b));
    proof {
        assert(map_view(m@) =~= mv.push((key@, b)));
    }
}

/// Resolves each variant of instruction `name` in order, claiming every opcode
/// in `used` and labelling it in `table` before the next one is resolved.
fn resolve_all(
    name: &String,
    vs: &Vec<Variant>,
    used: &mut Vec<u8>,
    table: &mut Vec<(u8, String)>,
) -> (r: Result<Vec<(String, u8)>, AssignError>)
    ensures
        match resolve_variants(
            name@,
            variant_views(vs@),
            vs@.len(),
            old(used)@,
            table_view(old(table)@),
        ) {
            Some((u, t, m)) => r matches Ok(mm) && final(used)@ == u && table_view(final(table)@)
                == t && map_view(mm@) == m,
            None => r is Err,
        },
{
    let ghost vv = variant_views(vs@);
    let ghost u0 = used@;
    let ghost t0 = table_view(table@);
    let mut m: Vec<(String, u8)> = Vec::new();
    proof {
        assert(map_view(m@) =~= Seq::empty());
    }
    for i in 0..vs.len()
        invariant
            vv == variant_views(vs@),
            u0 == old(used)@,
            t0 == table_view(old(table)@),
            resolve_variants(name@, vv, i as nat, u0, t0) == Some(
                (used@, table_view(table@), map_view(m@)),
            ),
    {
        let v = &vs[i];
        assert(v@ == vv[i as int]);
        match resolve(v.seed.as_str(), used) {
            Ok((b, _seed)) => {
                let mut label = name.clone();
                push_char(&mut label, '|');
                label.append(v.label.as_str());
                let ghost t_before = table_view(table@);
                used.push(b);
                table.push((b, label));
                proof {
                    assert(table_view(table@) =~= t_before.push((b, label_of(name@, v.label@))));
                }
                put_opcode(&mut m, v.key.clone(), b);
            },
            Err(e) => {
                proof {
                    assert(resolve_spec(vv[i as int].seed, used@) is None);
                    assert(resolve_variants(name@, vv, (i + 1) as nat, u0, t0) is None);
                    lemma_resolve_variants_none(
                        name@,
                        vv,
                        (i + 1) as nat,
                        vs@.len() as nat,
                        u0,
                        t0,
                    );
                }
                return Err(e);
            },
        }
    }
    Ok(m)
}

/// Resolves the variants of one definition and builds its record; the
/// byte-width variant is not considered here.
fn assign_record(info: &RawInstructionInfo, used: &mut Vec<u8>, table: &mut Vec<(u8, String)>) -> (r:
    Result<InstructionInfo, AssignError>)
    ensures
        match record_spec(info@, old(used)@, table_view(old(table)@)) {
            Some((u, t, rec)) => r matches Ok(x) && x@ == rec && final(used)@ == u && table_view(
                final(table)@,
            ) == t,
            None => r is Err,
        },
{
    let vs = expand(info);
    proof {
        assert(variant_views(vs@) =~= variants_of(info@));
    }
    match resolve_all(&info.name, &vs, used, table) {
        Ok(m) => {
            let byte = match info.is_byte_variant {
                Some(true) => true,
                _ => false,
            };
            Ok(InstructionInfo::new(info.name.clone(), size_code(info.size), m, byte))
        },
        Err(e) => Err(e),
    }
}

/// Processes one definition against the shared opcode space: assigns its
/// variants, then those of its byte-width variant if it declares one, and
/// appends the derived record followed by the definition's own record.
pub fn create_instruction_info(
    info: &RawInstructionInfo,
    all_opcodes: &mut Vec<u8>,
    inst_info: &mut Vec<InstructionInfo>,
    opcode_info: &mut Vec<(u8, String)>,
) -> (r: Result<(), AssignError>)
    ensures
        match create_spec(
            info@,
            Tables {
                used: old(all_opcodes)@,
                table: table_view(old(opcode_info)@),
                records: infos_view(old(inst_info)@),
            },
        ) {
            Some(s) => r is Ok && final(all_opcodes)@ == s.used && table_view(final(opcode_info)@)
                == s.table && infos_view(final(inst_info)@) == s.records,
            None => r is Err && final(inst_info)@ == old(inst_info)@,
        },
{
    let ghost recs0 = infos_view(inst_info@);
    let rec = match assign_record(info, all_opcodes, opcode_info) {
        Ok(x) => x,
        Err(e) => {
            return Err(e);
        },
    };
    if info.has_byte_variant == Some(true) {
        let mut name = info.name.clone();
        push_char(&mut name, 'b');
        let modes = match &info.mode_support {
            Some(m) => Some(m.clone()),
            None => None,
        };
        let derived = RawInstructionInfo {
            name,
            size: info.size,
            mode_support: modes,
            has_byte_variant: Some(false),
            is_byte_variant: Some(true),
        };
        proof {
            assert(derived@ == derived_view(info@));
        }
        let rec2 = match assign_record(&derived, all_opcodes, opcode_info) {
            Ok(x) => x,
            Err(e) => {
                return Err(e);
            },
        };
        inst_info.push(rec2);
        inst_info.push(rec);
        proof {
            assert(infos_view(inst_info@) =~= recs0.push(rec2@).push(rec@));
        }
    } else {
        inst_info.push(rec);
        proof {
            assert(infos_view(inst_info@) =~= recs0.push(rec@));
        }
    }
    Ok(())
}

/// Runs the generation over `defs` in order, starting from an empty opcode
/// space. Fails, with no output, when some seed runs out of probes.
pub fn assign_all(defs: &Vec<RawInstructionInfo>) -> (r: Result<InstructionInfoFile, AssignError>)
    ensures
        match assign_spec(raw_views(defs@)) {
            Some(s) => r matches Ok(f) && table_view(f.opcodes@) == s.table && infos_view(f.info@)
                == s.records,
            None => r is Err,
        },
        r matches Ok(f) ==> opcodes_unique(infos_view(f.info@)),
{
    let ghost dv = raw_views(defs@);
    let mut all_opcodes: Vec<u8> = Vec::new();
    let mut opcode_info: Vec<(u8, String)> = Vec::new();
    let mut inst_info: Vec<InstructionInfo> = Vec::new();
    proof {
        assert(table_view(opcode_info@) =~= Seq::empty());
        assert(infos_view(inst_info@) =~= Seq::empty());
    }
    for i in 0..defs.len()
        invariant
            dv == raw_views(defs@),
            run_spec(dv, i as nat) == Some(
                Tables {
                    used: all_opcodes@,
                    table: table_view(opcode_info@),
                    records: infos_view(inst_info@),
                },
            ),
    {
        match create_instruction_info(&defs[i], &mut all_opcodes, &mut inst_info, &mut opcode_info) {
            Ok(()) => {},
            Err(e) => {
                proof {
                    lemma_run_none(dv, (i + 1) as nat, dv.len());
                }
                return Err(e);
            },
        }
    }
    proof {
        lemma_global_uniqueness(dv);
    }
    Ok(InstructionInfoFile { opcodes: opcode_info, info: inst_info })
}

/// A copy of a generated instruction with the same view.
fn copy_info(x: &InstructionInfo) -> (r: InstructionInfo)
    ensures
        r@ == x@,
{
    let mut opcode: Vec<(String, u8)> = Vec::new();
    for i in 0..x.opcode.len()
        invariant
            map_view(opcode@) == map_view(x.opcode@).take(i as int),
    {
        let ghost before = map_view(opcode@);
        opcode.push((x.opcode[i].0.clone(), x.opcode[i].1));
        proof {
            assert(map_view(opcode@) =~= before.push(map_view(x.opcode@)[i as int]));
            assert(map_view(x.opcode@).take(i + 1) =~= map_view(x.opcode@).take(i as int).push(
                map_view(x.opcode@)[i as int],
            ));
        }
    }
    proof {
        assert(map_view(x.opcode@).take(x.opcode@.len() as int) =~= map_view(x.opcode@));
    }
    InstructionInfo::new(x.name.clone(), x.size, opcode, x.byte)
}

/// Looks up the first instruction named `instruction` and returns a copy of it.
pub fn get_instruction_info(insts: &[InstructionInfo], instruction: &str) -> (r: Option<
    InstructionInfo,
>)
    ensures
        match r {
            Some(x) => exists|i: int|
                0 <= i < insts@.len() && insts@[i].name@ == instruction@ && x@ == insts@[i]@
                    && forall|j: int| 0 <= j < i ==> insts@[j].name@ != instruction@,
            None => forall|j: int| 0 <= j < insts@.len() ==> insts@[j].name@ != instruction@,
        },
{
    let wanted = String::from_str(instruction);
    let mut i: usize = 0;
    while i < insts.len()
        invariant
            i <= insts@.len(),
            wanted@ == instruction@,
            forall|j: int| 0 <= j < i ==> insts@[j].name@ != instruction@,
        decreases insts@.len() - i,
    {
        if insts[i].name == wanted {
            return Some(copy_info(&insts[i]));
        }
        i += 1;
    }
    None
}

proof fn lemma_run_none(defs: Seq<RawView>, n: nat, m: nat)
    requires
        n <= m,
        run_spec(defs, n) is None,
    ensures
        run_spec(defs, m) is None,
    decreases m - n,
{
    if n < m {
        lemma_run_none(defs, n, (m - 1) as nat);
    }
}

} // verus!
