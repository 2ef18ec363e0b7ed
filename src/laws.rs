use vstd::prelude::*;
use crate::hasher::{hash_of, lemma_hash_push_space};
use crate::resolver::{first_free_from, lemma_resolve_spec, probe_opcode, probe_seed, resolve_spec};
use crate::expander::{
    InstructionSize, RawView, VariantSpec, byte_marker, derived_view, implied_key, upper_of,
    variants_of,
};
use crate::engine::{
    InfoView, Tables, assign_spec, empty_tables, create_spec, key_index, map_put, record_spec, resolve_variants,
    run_spec,
};

verus! {

/// No opcode occurs twice in `u`.
pub open spec fn no_dup_bytes(u: Seq<u8>) -> bool {
    forall|i: int, j: int| 0 <= i < u.len() && 0 <= j < u.len() && i != j ==> u[i] != u[j]
}

/// The reverse table has one entry per claimed opcode, in the same order.
pub open spec fn table_matches(u: Seq<u8>, t: Seq<(u8, Seq<char>)>) -> bool {
    t.len() == u.len() && forall|i: int| 0 <= i < u.len() ==> #[trigger] t[i].0 == u[i]
}

/// No two entries of an opcode map hold the same opcode.
pub open spec fn distinct_values(m: Seq<(Seq<char>, u8)>) -> bool {
    forall|i: int, j: int| 0 <= i < m.len() && 0 <= j < m.len() && i != j ==> m[i].1 != m[j].1
}

/// No two entries of an opcode map have the same key.
pub open spec fn distinct_keys(m: Seq<(Seq<char>, u8)>) -> bool {
    forall|i: int, j: int| 0 <= i < m.len() && 0 <= j < m.len() && i != j ==> m[i].0 != m[j].0
}

/// Every two distinct (instruction, variant) entries hold different opcodes.
pub open spec fn opcodes_unique(rs: Seq<InfoView>) -> bool {
    forall|a: int, i: int, b: int, j: int|
        0 <= a < rs.len() && 0 <= b < rs.len() && 0 <= i < rs[a].opcode.len() && 0 <= j
            < rs[b].opcode.len() && (a != b || i != j) ==> #[trigger] rs[a].opcode[i].1
            != #[trigger] rs[b].opcode[j].1
}

/// Well-formedness of the opcode space of a run.
pub open spec fn tables_wf(s: Tables) -> bool {
    &&& no_dup_bytes(s.used)
    &&& table_matches(s.used, s.table)
    &&& opcodes_unique(s.records)
    &&& forall|a: int, i: int|
        0 <= a < s.records.len() && 0 <= i < s.records[a].opcode.len() ==> s.used.contains(
            #[trigger] s.records[a].opcode[i].1,
        )
    &&& forall|a: int| 0 <= a < s.records.len() ==> distinct_keys(#[trigger] s.records[a].opcode)
}

proof fn lemma_key_index(m: Seq<(Seq<char>, u8)>, k: Seq<char>)
    ensures
        -1 <= key_index(m, k) < m.len(),
        key_index(m, k) >= 0 ==> m[key_index(m, k)].0 == k,
        key_index(m, k) == -1 ==> forall|j: int| 0 <= j < m.len() ==> m[j].0 != k,
    decreases m.len(),
{
    if m.len() > 0 {
        lemma_key_index(m.drop_last(), k);
        if key_index(m, k) == -1 {
            assert forall|j: int| 0 <= j < m.len() implies m[j].0 != k by {
                if j < m.len() - 1 {
                    assert(m.drop_last()[j] == m[j]);
                }
            }
        }
    }
}

proof fn lemma_map_put(m: Seq<(Seq<char>, u8)>, k: Seq<char>, v: u8)
    requires
        distinct_values(m),
        distinct_keys(m),
        forall|j: int| 0 <= j < m.len() ==> m[j].1 != v,
    ensures
        distinct_values(map_put(m, k, v)),
        distinct_keys(map_put(m, k, v)),
        forall|j: int|
            0 <= j < map_put(m, k, v).len() ==> map_put(m, k, v)[j].1 == v || exists|l: int|
                0 <= l < m.len() && m[l].1 == #[trigger] map_put(m, k, v)[j].1,
{
    lemma_key_index(m, k);
    let r = map_put(m, k, v);
    assert forall|j: int| 0 <= j < r.len() && r[j].1 != v implies exists|l: int|
        0 <= l < m.len() && m[l].1 == #[trigger] r[j].1 by {
        assert(m[j].1 == r[j].1);
    }
}

proof fn lemma_prefix_contains(u0: Seq<u8>, u: Seq<u8>, x: u8)
    requires
        u0.len() <= u.len(),
        u.subrange(0, u0.len() as int) == u0,
        u0.contains(x),
    ensures
        u.contains(x),
{
    let i = choose|i: int| 0 <= i < u0.len() && u0[i] == x;
    assert(u.subrange(0, u0.len() as int)[i] == u[i]);
}

proof fn lemma_resolve_variants_wf(
    name: Seq<char>,
    vs: Seq<VariantSpec>,
    n: nat,
    u0: Seq<u8>,
    t0: Seq<(u8, Seq<char>)>,
)
    requires
        no_dup_bytes(u0),
        table_matches(u0, t0),
    ensures
        resolve_variants(name, vs, n, u0, t0) matches Some((u, t, m)) ==> {
            &&& no_dup_bytes(u)
            &&& table_matches(u, t)
            &&& u0.len() <= u.len()
            &&& u.subrange(0, u0.len() as int) == u0
            &&& distinct_values(m)
            &&& distinct_keys(m)
            &&& forall|j: int|
                0 <= j < m.len() ==> u.contains(#[trigger] m[j].1) && !u0.contains(m[j].1)
        },
    decreases n,
{
    if n > 0 {
        lemma_resolve_variants_wf(name, vs, (n - 1) as nat, u0, t0);
        if let Some((u1, t1, m1)) = resolve_variants(name, vs, (n - 1) as nat, u0, t0) {
            let v = vs[n - 1];
            lemma_resolve_spec(v.seed, u1);
            if let Some(k) = resolve_spec(v.seed, u1) {
                let b = probe_opcode(v.seed, k);
                let u = u1.push(b);
                assert forall|j: int| 0 <= j < m1.len() implies m1[j].1 != b by {
                    assert(u1.contains(m1[j].1));
                }
                lemma_map_put(m1, v.key, b);
                let m = map_put(m1, v.key, b);
                assert(u.subrange(0, u0.len() as int) =~= u1.subrange(0, u0.len() as int));
                assert(u.contains(b)) by {
                    assert(u[u1.len() as int] == b);
                }
                assert(!u0.contains(b)) by {
                    if u0.contains(b) {
                        lemma_prefix_contains(u0, u1, b);
                    }
                }
                assert forall|j: int| 0 <= j < m.len() implies u.contains(#[trigger] m[j].1)
                    && !u0.contains(m[j].1) by {
                    if m[j].1 != b {
                        let l = choose|l: int| 0 <= l < m1.len() && m1[l].1 == m[j].1;
                        assert(u1.contains(m1[l].1));
                        let p = choose|p: int| 0 <= p < u1.len() && u1[p] == m1[l].1;
                        assert(u[p] == m1[l].1);
                    }
                }
                assert(no_dup_bytes(u)) by {
                    assert forall|i: int, j: int|
                        0 <= i < u.len() && 0 <= j < u.len() && i != j implies u[i] != u[j] by {
                        if i < u1.len() && j == u1.len() {
                            assert(u1[i] == u[i]);
                        } else if j < u1.len() && i == u1.len() {
                            assert(u1[j] == u[j]);
                        }
                    }
                }
            }
        }
    }
}

proof fn lemma_push_record(rs: Seq<InfoView>, r: InfoView)
    requires
        opcodes_unique(rs),
        distinct_values(r.opcode),
        forall|a: int, i: int, j: int|
            0 <= a < rs.len() && 0 <= i < rs[a].opcode.len() && 0 <= j < r.opcode.len()
                ==> #[trigger] rs[a].opcode[i].1 != #[trigger] r.opcode[j].1,
    ensures
        opcodes_unique(rs.push(r)),
{
    let rs2 = rs.push(r);
    assert forall|a: int, i: int, b: int, j: int|
        0 <= a < rs2.len() && 0 <= b < rs2.len() && 0 <= i < rs2[a].opcode.len() && 0 <= j
            < rs2[b].opcode.len() && (a != b || i != j) implies #[trigger] rs2[a].opcode[i].1
        != #[trigger] rs2[b].opcode[j].1 by {
        if a < rs.len() && b < rs.len() {
            assert(rs2[a] == rs[a] && rs2[b] == rs[b]);
        } else if a < rs.len() {
            assert(rs2[a] == rs[a] && rs2[b] == r);
            assert(rs[a].opcode[i].1 != r.opcode[j].1);
        } else if b < rs.len() {
            assert(rs2[b] == rs[b] && rs2[a] == r);
            assert(rs[b].opcode[j].1 != r.opcode[i].1);
        }
    }
}

proof fn lemma_record_wf(d: RawView, u0: Seq<u8>, t0: Seq<(u8, Seq<char>)>)
    requires
        no_dup_bytes(u0),
        table_matches(u0, t0),
    ensures
        record_spec(d, u0, t0) matches Some((u, t, rec)) ==> {
            &&& no_dup_bytes(u)
            &&& table_matches(u, t)
            &&& u0.len() <= u.len()
            &&& u.subrange(0, u0.len() as int) == u0
            &&& distinct_values(rec.opcode)
            &&& distinct_keys(rec.opcode)
            &&& forall|j: int|
                0 <= j < rec.opcode.len() ==> u.contains(#[trigger] rec.opcode[j].1)
                    && !u0.contains(rec.opcode[j].1)
        },
{
    lemma_resolve_variants_wf(d.name, variants_of(d), variants_of(d).len(), u0, t0);
}

/// Entries of `rs` and `rec` cannot share an opcode when those of `rs` are all
/// in `x` and those of `rec` are all outside it.
proof fn lemma_cross_fresh(rs: Seq<InfoView>, rec: InfoView, x: Seq<u8>)
    requires
        forall|a: int, i: int|
            0 <= a < rs.len() && 0 <= i < rs[a].opcode.len() ==> x.contains(
                #[trigger] rs[a].opcode[i].1,
            ),
        forall|j: int| 0 <= j < rec.opcode.len() ==> !x.contains(#[trigger] rec.opcode[j].1),
    ensures
        forall|a: int, i: int, j: int|
            0 <= a < rs.len() && 0 <= i < rs[a].opcode.len() && 0 <= j < rec.opcode.len()
                ==> #[trigger] rs[a].opcode[i].1 != #[trigger] rec.opcode[j].1,
{
    assert forall|a: int, i: int, j: int|
        0 <= a < rs.len() && 0 <= i < rs[a].opcode.len() && 0 <= j < rec.opcode.len()
            implies #[trigger] rs[a].opcode[i].1 != #[trigger] rec.opcode[j].1 by {
        assert(x.contains(rs[a].opcode[i].1));
        assert(!x.contains(rec.opcode[j].1));
    }
}

proof fn lemma_push_wf(s: Tables, u: Seq<u8>, t: Seq<(u8, Seq<char>)>, rec: InfoView)
    requires
        tables_wf(s),
        no_dup_bytes(u),
        table_matches(u, t),
        s.used.len() <= u.len(),
        u.subrange(0, s.used.len() as int) == s.used,
        distinct_values(rec.opcode),
        distinct_keys(rec.opcode),
        forall|j: int| 0 <= j < rec.opcode.len() ==> u.contains(#[trigger] rec.opcode[j].1),
        forall|a: int, i: int, j: int|
            0 <= a < s.records.len() && 0 <= i < s.records[a].opcode.len() && 0 <= j
                < rec.opcode.len() ==> #[trigger] s.records[a].opcode[i].1
                != #[trigger] rec.opcode[j].1,
    ensures
        tables_wf(Tables { used: u, table: t, records: s.records.push(rec) }),
{
    let rs = s.records;
    lemma_push_record(rs, rec);
    let rs2 = rs.push(rec);
    assert forall|a: int, i: int| 0 <= a < rs2.len() && 0 <= i < rs2[a].opcode.len() implies u.contains(
        #[trigger] rs2[a].opcode[i].1,
    ) by {
        if a < rs.len() {
            assert(rs2[a] == rs[a]);
            assert(s.used.contains(rs[a].opcode[i].1));
            lemma_prefix_contains(s.used, u, rs[a].opcode[i].1);
        }
    }
    assert forall|a: int| 0 <= a < rs2.len() implies distinct_keys(#[trigger] rs2[a].opcode) by {
        if a < rs.len() {
            assert(rs2[a] == rs[a]);
        }
    }
}

proof fn lemma_create_wf(d: RawView, s: Tables)
    requires
        tables_wf(s),
    ensures
        create_spec(d, s) matches Some(s2) ==> tables_wf(s2),
{
    lemma_record_wf(d, s.used, s.table);
    if let Some((u, t, rec)) = record_spec(d, s.used, s.table) {
        if d.has_byte {
            lemma_record_wf(derived_view(d), u, t);
            if let Some((u2, t2, rec2)) = record_spec(derived_view(d), u, t) {
                assert forall|j: int| 0 <= j < rec2.opcode.len() implies !s.used.contains(
                    #[trigger] rec2.opcode[j].1,
                ) by {
                    if s.used.contains(rec2.opcode[j].1) {
                        lemma_prefix_contains(s.used, u, rec2.opcode[j].1);
                    }
                }
                assert(u2.subrange(0, s.used.len() as int) =~= u.subrange(0, s.used.len() as int))
                    by {
                    assert(u2.subrange(0, u.len() as int) == u);
                }
                lemma_cross_fresh(s.records, rec2, s.used);
                lemma_push_wf(s, u2, t2, rec2);
                let rs1 = s.records.push(rec2);
                let s1 = Tables { used: u2, table: t2, records: rs1 };
                assert forall|j: int| 0 <= j < rec.opcode.len() implies u2.contains(
                    #[trigger] rec.opcode[j].1,
                ) by {
                    lemma_prefix_contains(u, u2, rec.opcode[j].1);
                }
                assert forall|a: int, i: int, j: int|
                    0 <= a < rs1.len() && 0 <= i < rs1[a].opcode.len() && 0 <= j
                        < rec.opcode.len() implies #[trigger] rs1[a].opcode[i].1
                    != #[trigger] rec.opcode[j].1 by {
                    if a < s.records.len() {
                        assert(rs1[a] == s.records[a]);
                        assert(s.used.contains(s.records[a].opcode[i].1));
                        assert(!s.used.contains(rec.opcode[j].1));
                    } else {
                        assert(rs1[a] == rec2);
                        assert(!u.contains(rec2.opcode[i].1));
                        assert(u.contains(rec.opcode[j].1));
                    }
                }
                assert(u2.subrange(0, u2.len() as int) =~= u2);
                lemma_push_wf(s1, u2, t2, rec);
            }
        } else {
            lemma_cross_fresh(s.records, rec, s.used);
            lemma_push_wf(s, u, t, rec);
        }
    }
}

proof fn lemma_run_wf(defs: Seq<RawView>, n: nat)
    ensures
        run_spec(defs, n) matches Some(s) ==> tables_wf(s),
    decreases n,
{
    if n > 0 {
        lemma_run_wf(defs, (n - 1) as nat);
        if let Some(s) = run_spec(defs, (n - 1) as nat) {
            lemma_create_wf(defs[n - 1], s);
        }
    }
}

/// In a successful run no two distinct (instruction, variant key) entries share
/// an opcode, the keys of each instruction are distinct, and the reverse table
/// holds exactly one entry per claimed opcode with no opcode twice.
pub proof fn lemma_global_uniqueness(defs: Seq<RawView>)
    requires
        assign_spec(defs) is Some,
    ensures
        ({
            let s = assign_spec(defs)->Some_0;
            &&& opcodes_unique(s.records)
            &&& forall|a: int| 0 <= a < s.records.len() ==> distinct_keys(#[trigger] s.records[a].opcode)
            &&& s.table.len() == s.used.len()
            &&& forall|i: int, j: int|
                0 <= i < s.table.len() && 0 <= j < s.table.len() && i != j ==> s.table[i].0
                    != s.table[j].0
        }),
{
    lemma_run_wf(defs, defs.len());
    let s = assign_spec(defs)->Some_0;
    assert forall|i: int, j: int|
        0 <= i < s.table.len() && 0 <= j < s.table.len() && i != j implies s.table[i].0
        != s.table[j].0 by {
        assert(s.table[i].0 == s.used[i] && s.table[j].0 == s.used[j]);
    }
}

/// The outcome of a run is a function of the ordered input alone: two runs on
/// the same definitions give the same reverse table and the same records.
pub proof fn lemma_determinism(defs1: Seq<RawView>, defs2: Seq<RawView>)
    requires
        defs1 == defs2,
    ensures
        assign_spec(defs1) == assign_spec(defs2),
{
}

/// A definition that declares a byte-width variant adds exactly two records:
/// the derived one (name suffixed with the byte marker, flagged as a byte
/// variant) and then its own; one that declares none adds exactly its own.
/// Records already present are kept.
pub proof fn lemma_byte_variant_expansion(d: RawView, s: Tables)
    requires
        create_spec(d, s) is Some,
    ensures
        ({
            let r = create_spec(d, s)->Some_0.records;
            let n = s.records.len() as int;
            &&& r.subrange(0, n) == s.records
            &&& if d.has_byte {
                &&& r.len() == n + 2
                &&& r[n].name == d.name.push(byte_marker())
                &&& r[n].byte
                &&& r[n].size == r[n + 1].size
                &&& r[n + 1].name == d.name
                &&& r[n + 1].byte == d.is_byte
                &&& !derived_view(d).has_byte
            } else {
                &&& r.len() == n + 1
                &&& r[n].name == d.name
                &&& r[n].byte == d.is_byte
            }
        }),
{
    let r = create_spec(d, s)->Some_0.records;
    assert(r.subrange(0, s.records.len() as int) =~= s.records);
}

/// The set of keys of an opcode map.
pub open spec fn keys_of(m: Seq<(Seq<char>, u8)>) -> Set<Seq<char>> {
    Set::new(|k: Seq<char>| exists|j: int| 0 <= j < m.len() && m[j].0 == k)
}

proof fn lemma_map_put_keys(m: Seq<(Seq<char>, u8)>, k: Seq<char>, v: u8)
    ensures
        keys_of(map_put(m, k, v)) == keys_of(m).insert(k),
{
    lemma_key_index(m, k);
    let r = map_put(m, k, v);
    let i = key_index(m, k);
    assert forall|x: Seq<char>| keys_of(r).contains(x) <==> keys_of(m).insert(k).contains(x) by {
        if keys_of(m).contains(x) && x != k {
            let j = choose|j: int| 0 <= j < m.len() && m[j].0 == x;
            assert(r[j].0 == x);
        }
        if x == k {
            if i >= 0 {
                assert(r[i].0 == k);
            } else {
                assert(r[m.len() as int].0 == k);
            }
        }
        if keys_of(r).contains(x) && x != k {
            let j = choose|j: int| 0 <= j < r.len() && r[j].0 == x;
            assert(m[j].0 == x);
        }
    }
    assert(keys_of(r) =~= keys_of(m).insert(k));
}

proof fn lemma_resolve_variants_keys(
    name: Seq<char>,
    vs: Seq<VariantSpec>,
    n: nat,
    u0: Seq<u8>,
    t0: Seq<(u8, Seq<char>)>,
)
    requires
        n <= vs.len(),
    ensures
        resolve_variants(name, vs, n, u0, t0) matches Some((u, t, m)) ==> keys_of(m) == Set::new(
            |k: Seq<char>| exists|i: int| 0 <= i < n && vs[i].key == k,
        ),
    decreases n,
{
    if n == 0 {
        if let Some((u, t, m)) = resolve_variants(name, vs, n, u0, t0) {
            assert(keys_of(m) =~= Set::new(|k: Seq<char>| exists|i: int| 0 <= i < n && vs[i].key == k));
        }
    } else {
        lemma_resolve_variants_keys(name, vs, (n - 1) as nat, u0, t0);
        if let Some((u1, t1, m1)) = resolve_variants(name, vs, (n - 1) as nat, u0, t0) {
            if let Some(k) = resolve_spec(vs[n - 1].seed, u1) {
                let b = probe_opcode(vs[n - 1].seed, k);
                lemma_map_put_keys(m1, vs[n - 1].key, b);
                let want = Set::new(|x: Seq<char>| exists|i: int| 0 <= i < n && vs[i].key == x);
                let prev = Set::new(|x: Seq<char>| exists|i: int| 0 <= i < n - 1 && vs[i].key == x);
                assert forall|x: Seq<char>| want.contains(x) <==> prev.insert(vs[n - 1].key).contains(x) by {
                    if want.contains(x) {
                        let i = choose|i: int| 0 <= i < n && vs[i].key == x;
                        if i < n - 1 {
                            assert(prev.contains(x));
                        }
                    }
                    if prev.contains(x) {
                        let i = choose|i: int| 0 <= i < n - 1 && vs[i].key == x;
                        assert(0 <= i < n && vs[i].key == x);
                    }
                }
                assert(want =~= prev.insert(vs[n - 1].key));
            }
        }
    }
}

/// The keys of a generated record: the implied marker alone for an implied
/// instruction, one mode character per mode for a single-operand one, and the
/// register marker followed by the mode character for a register-and-data one.
pub proof fn lemma_variant_key_shape(d: RawView, u: Seq<u8>, t: Seq<(u8, Seq<char>)>)
    requires
        record_spec(d, u, t) is Some,
    ensures
        forall|k: Seq<char>|
            #[trigger] keys_of(record_spec(d, u, t)->Some_0.2.opcode).contains(k) <==> match d.size {
                InstructionSize::Implied => k == implied_key(),
                InstructionSize::Single => exists|i: int| 0 <= i < d.modes.len() && k == seq![d.modes[i]],
                InstructionSize::RegisterAndData => exists|i: int|
                    0 <= i < d.modes.len() && k == seq!['R', d.modes[i]],
            },
{
    let vs = variants_of(d);
    lemma_resolve_variants_keys(d.name, vs, vs.len(), u, t);
    let keys = keys_of(record_spec(d, u, t)->Some_0.2.opcode);
    assert forall|k: Seq<char>| #[trigger] keys.contains(k) <==> match d.size {
        InstructionSize::Implied => k == implied_key(),
        InstructionSize::Single => exists|i: int| 0 <= i < d.modes.len() && k == seq![d.modes[i]],
        InstructionSize::RegisterAndData => exists|i: int|
            0 <= i < d.modes.len() && k == seq!['R', d.modes[i]],
    } by {
        match d.size {
            InstructionSize::Implied => {
                if k == implied_key() {
                    assert(vs[0].key == k);
                }
            },
            _ => {
                if keys.contains(k) {
                    let i = choose|i: int| 0 <= i < vs.len() && vs[i].key == k;
                    assert(k == vs[i].key);
                }
                if exists|i: int| 0 <= i < d.modes.len() && vs[i].key == k {
                    let i = choose|i: int| 0 <= i < d.modes.len() && vs[i].key == k;
                    assert(keys.contains(k));
                }
                if d.size == InstructionSize::Single {
                    if exists|i: int| 0 <= i < d.modes.len() && k == seq![d.modes[i]] {
                        let i = choose|i: int| 0 <= i < d.modes.len() && k == seq![d.modes[i]];
                        assert(vs[i].key == k);
                    }
                } else {
                    if exists|i: int| 0 <= i < d.modes.len() && k == seq!['R', d.modes[i]] {
                        let i = choose|i: int| 0 <= i < d.modes.len() && k == seq!['R', d.modes[i]];
                        assert(vs[i].key == k);
                    }
                }
            },
        }
    }
}

proof fn lemma_first_probes(base: Seq<char>)
    ensures
        probe_opcode(base, 0) == hash_of(base),
        probe_opcode(base, 1) as int == (hash_of(base) as int + 32) % 256,
{
    assert(probe_seed(base, 0) =~= base);
    assert(probe_seed(base, 1) =~= base.push(' '));
    lemma_hash_push_space(base);
}

/// An implied definition without byte variant, resolved at probe `k`, adds one
/// record holding the single implied key.
proof fn lemma_create_implied(d: RawView, s: Tables, k: nat)
    requires
        d.size == InstructionSize::Implied,
        !d.has_byte,
        resolve_spec(upper_of(d.name), s.used) == Some(k),
    ensures
        create_spec(d, s) matches Some(s2) && s2.used == s.used.push(
            probe_opcode(upper_of(d.name), k),
        ) && s2.records == s.records.push(
            InfoView {
                name: d.name,
                size: 0,
                opcode: seq![(implied_key(), probe_opcode(upper_of(d.name), k))],
                byte: d.is_byte,
            },
        ),
{
    let vs = variants_of(d);
    assert(vs.len() == 1);
    assert(resolve_variants(d.name, vs, 0, s.used, s.table) == Some(
        (s.used, s.table, Seq::<(Seq<char>, u8)>::empty()),
    ));
    let b = probe_opcode(upper_of(d.name), k);
    assert(map_put(Seq::empty(), implied_key(), b) =~= seq![(implied_key(), b)]);
}

/// Two implied definitions whose upper-cased names have the same fingerprint:
/// the first one processed keeps that fingerprint and the second is moved one
/// probe further, so swapping their order swaps their opcodes.
pub proof fn lemma_order_sensitivity(a: RawView, b: RawView)
    requires
        a.size == InstructionSize::Implied,
        b.size == InstructionSize::Implied,
        !a.has_byte,
        !b.has_byte,
        hash_of(upper_of(a.name)) == hash_of(upper_of(b.name)),
    ensures
        ({
            let h = hash_of(upper_of(a.name));
            let h1 = ((h as int + 32) % 256) as u8;
            let r1 = assign_spec(seq![a, b]);
            let r2 = assign_spec(seq![b, a]);
            &&& h1 != h
            &&& r1 is Some && r2 is Some
            &&& r1->Some_0.records.len() == 2 && r2->Some_0.records.len() == 2
            &&& r1->Some_0.records[0].name == a.name
            &&& r1->Some_0.records[0].opcode == seq![(implied_key(), h)]
            &&& r1->Some_0.records[1].name == b.name
            &&& r1->Some_0.records[1].opcode == seq![(implied_key(), h1)]
            &&& r2->Some_0.records[0].name == b.name
            &&& r2->Some_0.records[0].opcode == seq![(implied_key(), h)]
            &&& r2->Some_0.records[1].name == a.name
            &&& r2->Some_0.records[1].opcode == seq![(implied_key(), h1)]
        }),
{
    lemma_pair_in_order(a, b);
    lemma_pair_in_order(b, a);
}

/// One order of the pair in `lemma_order_sensitivity`.
proof fn lemma_pair_in_order(x: RawView, y: RawView)
    requires
        x.size == InstructionSize::Implied,
        y.size == InstructionSize::Implied,
        !x.has_byte,
        !y.has_byte,
        hash_of(upper_of(x.name)) == hash_of(upper_of(y.name)),
    ensures
        ({
            let h = hash_of(upper_of(x.name));
            let h1 = ((h as int + 32) % 256) as u8;
            let r = assign_spec(seq![x, y]);
            &&& h1 != h
            &&& r is Some
            &&& r->Some_0.records.len() == 2
            &&& r->Some_0.records[0].name == x.name
            &&& r->Some_0.records[0].opcode == seq![(implied_key(), h)]
            &&& r->Some_0.records[1].name == y.name
            &&& r->Some_0.records[1].opcode == seq![(implied_key(), h1)]
        }),
{
    let ux = upper_of(x.name);
    let uy = upper_of(y.name);
    let h = hash_of(ux);
    let h1 = ((h as int + 32) % 256) as u8;
    lemma_first_probes(ux);
    lemma_first_probes(uy);
    let defs = seq![x, y];
    let e = empty_tables();
    assert(first_free_from(ux, e.used, 0) == Some(0nat));
    lemma_create_implied(x, e, 0);
    let s1 = create_spec(x, e)->Some_0;
    assert(run_spec(defs, 1) == Some(s1)) by {
        assert(run_spec(defs, 0) == Some(e));
    }
    assert(s1.used == seq![h]);
    assert(s1.used.contains(h)) by {
        assert(s1.used[0] == h);
    }
    assert(!s1.used.contains(h1));
    assert(first_free_from(uy, s1.used, 1) == Some(1nat));
    assert(first_free_from(uy, s1.used, 0) == Some(1nat));
    lemma_create_implied(y, s1, 1);
    assert(run_spec(defs, 2) == create_spec(y, s1));
    assert(assign_spec(defs) == run_spec(defs, 2));
}

} // verus!
