use vstd::prelude::*;

verus! {

/// A reference to a node type in the grammar's schema.
#[derive(Clone, Debug)]
pub struct Subtype {
    pub ty: String,
    pub named: bool,
}

/// What a node may hold at one position (a field, or its unnamed children):
/// whether it may hold several nodes, whether it must hold one, and of which
/// types.
#[derive(Clone, Debug)]
pub struct FieldSchema {
    pub multiple: bool,
    pub required: bool,
    pub types: Vec<Subtype>,
}

/// One record of the grammar's node-type schema.
#[derive(Clone, Debug)]
pub struct NodeSchema {
    pub ty: String,
    pub named: bool,
    pub children: FieldSchema,
    pub fields: Vec<(String, FieldSchema)>,
    pub subtypes: Vec<Subtype>,
}

pub struct FieldView {
    pub multiple: bool,
    pub required: bool,
    pub types: Seq<Seq<char>>,
}

pub struct NodeSchemaView {
    pub ty: Seq<char>,
    pub children: FieldView,
    pub fields: Seq<FieldView>,
    pub subtypes: Seq<Seq<char>>,
}

impl View for FieldSchema {
    type V = FieldView;

    open spec fn view(&self) -> FieldView {
        FieldView {
            multiple: self.multiple,
            required: self.required,
            types: self.types@.map_values(|s: Subtype| s.ty@),
        }
    }
}

impl View for NodeSchema {
    type V = NodeSchemaView;

    open spec fn view(&self) -> NodeSchemaView {
        NodeSchemaView {
            ty: self.ty@,
            children: self.children@,
            fields: self.fields@.map_values(|f: (String, FieldSchema)| f.1@),
            subtypes: self.subtypes@.map_values(|s: Subtype| s.ty@),
        }
    }
}

/// `x` is `k`, or a subtype of `k` within `fuel` steps of the supertype
/// declarations of `schema`.
pub open spec fn reaches(schema: Seq<NodeSchemaView>, k: Seq<char>, x: Seq<char>, fuel: nat) -> bool
    decreases fuel, schema.len() + 1, 0int,
{
    x == k || reaches_via(schema, k, x, fuel, 0, 0)
}

/// Some subtype declared for `k` by a record from the `ri`-th on (from its
/// `si`-th subtype on, for the `ri`-th record itself) reaches `x` within
/// `fuel` steps, counting the step to that subtype.
pub open spec fn reaches_via(
    schema: Seq<NodeSchemaView>,
    k: Seq<char>,
    x: Seq<char>,
    fuel: nat,
    ri: int,
    si: int,
) -> bool
    decreases fuel, schema.len() - ri, schema[ri].subtypes.len() - si,
{
    if ri < 0 || si < 0 || ri >= schema.len() {
        false
    } else if si >= schema[ri].subtypes.len() {
        reaches_via(schema, k, x, fuel, ri + 1, 0)
    } else {
        (fuel > 0 && schema[ri].ty == k && reaches(schema, schema[ri].subtypes[si], x, (fuel - 1) as nat))
            || reaches_via(
            schema,
            k,
            x,
            fuel,
            ri,
            si + 1,
        )
    }
}

/// The kinds that `k` can be: `k` itself and every type reachable from it
/// through supertype declarations. A chain without repetition has fewer steps
/// than the schema has records, so this is the whole transitive closure.
pub open spec fn subtypes_of(schema: Seq<NodeSchemaView>, k: Seq<char>) -> Set<Seq<char>> {
    Set::new(|x: Seq<char>| reaches(schema, k, x, schema.len()))
}

pub open spec fn declared(schema: Seq<NodeSchemaView>, k: Seq<char>) -> bool {
    exists|ri: int| 0 <= ri < schema.len() && #[trigger] schema[ri].ty == k
}

/// Some field of a `parent` node must hold exactly one node, and `child` is
/// one of the kinds it may hold.
pub open spec fn required_in(schema: Seq<NodeSchemaView>, child: Seq<char>, parent: Seq<char>) -> bool {
    exists|ri: int, fi: int, ti: int|
        0 <= ri < schema.len() && schema[ri].ty == parent && 0 <= fi < schema[ri].fields.len()
            && schema[ri].fields[fi].required && !schema[ri].fields[fi].multiple && 0 <= ti
            < schema[ri].fields[fi].types.len() && declared(schema, schema[ri].fields[fi].types[ti])
            && #[trigger] subtypes_of(schema, schema[ri].fields[fi].types[ti]).contains(child)
}

/// The last record of `schema` whose type is `k`, if any.
pub open spec fn last_record(schema: Seq<NodeSchemaView>, k: Seq<char>) -> Option<int>
    decreases schema.len(),
{
    if schema.len() == 0 {
        None
    } else if schema.last().ty == k {
        Some(schema.len() - 1)
    } else {
        last_record(schema.drop_last(), k)
    }
}

/// The kinds of which a `parent` node may hold any number of children,
/// zero included.
pub open spec fn list_types_of(schema: Seq<NodeSchemaView>, parent: Seq<char>) -> Seq<Seq<char>> {
    match last_record(schema, parent) {
        Some(ri) => if schema[ri].children.multiple && !schema[ri].children.required {
            schema[ri].children.types
        } else {
            Seq::empty()
        },
        None => Seq::empty(),
    }
}

/// The grammar's schema, read for optionality and list kinds.
#[derive(Clone, Debug)]
pub struct NodeTypes {
    schema: Vec<NodeSchema>,
}

impl View for NodeTypes {
    type V = Seq<NodeSchemaView>;

    closed spec fn view(&self) -> Seq<NodeSchemaView> {
        self.schema@.map_values(|n: NodeSchema| n@)
    }
}

/// A subtype declaration of `schema` names `x`.
pub open spec fn named_as_subtype(schema: Seq<NodeSchemaView>, x: Seq<char>) -> bool {
    exists|ri: int, si: int|
        0 <= ri < schema.len() && 0 <= si < schema[ri].subtypes.len() && #[trigger] schema[ri].subtypes[si]
            == x
}

proof fn lemma_reaches_named(schema: Seq<NodeSchemaView>, k: Seq<char>, x: Seq<char>, fuel: nat)
    requires
        reaches(schema, k, x, fuel),
        x != k,
    ensures
        named_as_subtype(schema, x),
    decreases fuel, schema.len() + 1, 0int,
{
    lemma_via_named(schema, k, x, fuel, 0, 0);
}

proof fn lemma_via_named(schema: Seq<NodeSchemaView>, k: Seq<char>, x: Seq<char>, fuel: nat, ri: int, si: int)
    requires
        reaches_via(schema, k, x, fuel, ri, si),
    ensures
        named_as_subtype(schema, x),
    decreases fuel, schema.len() - ri, schema[ri].subtypes.len() - si,
{
    if si >= schema[ri].subtypes.len() {
        lemma_via_named(schema, k, x, fuel, ri + 1, 0);
    } else if fuel > 0 && schema[ri].ty == k && reaches(schema, schema[ri].subtypes[si], x, (fuel - 1) as nat) {
        let s = schema[ri].subtypes[si];
        if x == s {
            assert(schema[ri].subtypes[si] == x);
        } else {
            lemma_reaches_named(schema, s, x, (fuel - 1) as nat);
        }
    } else {
        lemma_via_named(schema, k, x, fuel, ri, si + 1);
    }
}

impl NodeTypes {
    pub fn from_schema(schema: Vec<NodeSchema>) -> (r: NodeTypes)
        ensures
            r@ == schema@.map_values(|n: NodeSchema| n@),
    {
        NodeTypes { schema }
    }

    fn reaches_exec(&self, k: &String, x: &String, fuel: usize) -> (r: bool)
        ensures
            r == reaches(self@, k@, x@, fuel as nat),
        decreases fuel,
    {
        if string_eq(x, k) {
            return true;
        }
        let ghost schema = self@;
        let mut ri: usize = 0;
        while ri < self.schema.len()
            invariant
                schema == self@,
                ri <= schema.len(),
                x@ != k@,
                reaches(schema, k@, x@, fuel as nat) == reaches_via(schema, k@, x@, fuel as nat, ri as int, 0),
            decreases schema.len() - ri,
        {
            let rec = &self.schema[ri];
            assert(schema[ri as int] == rec@);
            let same = string_eq(&rec.ty, k);
            let mut si: usize = 0;
            while si < rec.subtypes.len()
                invariant
                    schema == self@,
                    ri < schema.len(),
                    schema[ri as int] == rec@,
                    same == (rec.ty@ == k@),
                    si <= rec.subtypes@.len(),
                    x@ != k@,
                    reaches(schema, k@, x@, fuel as nat) == reaches_via(schema, k@, x@, fuel as nat, ri as int, si as int),
                decreases rec.subtypes@.len() - si,
            {
                assert(schema[ri as int].subtypes[si as int] == rec.subtypes@[si as int].ty@);
                if same && fuel > 0 && self.reaches_exec(&rec.subtypes[si].ty, x, fuel - 1) {
                    return true;
                }
                si = si + 1;
            }
            ri = ri + 1;
        }
        false
    }

    /// The kinds that a node of kind `kind` can be: `kind` itself and all its
    /// subtypes, transitively.
    pub fn subtypes(&self, kind: &String) -> (r: Vec<String>)
        ensures
            string_set(r@) == subtypes_of(self@, kind@),
            r@.len() > 0,
            r@[0]@ == kind@,
            forall|i: int, j: int| 0 <= i < j < r@.len() ==> r@[i]@ != r@[j]@,
    {
        let ghost schema = self@;
        let fuel = self.schema.len();
        let mut r: Vec<String> = Vec::new();
        r.push(kind.clone());
        assert(r@[0]@ == kind@);
        let mut ri: usize = 0;
        while ri < self.schema.len()
            invariant
                schema == self@,
                fuel == schema.len(),
                ri <= schema.len(),
                r@.len() > 0,
                r@[0]@ == kind@,
                forall|i: int, j: int| 0 <= i < j < r@.len() ==> r@[i]@ != r@[j]@,
                forall|i: int| 0 <= i < r@.len() ==> #[trigger] subtypes_of(schema, kind@).contains(r@[i]@),
                forall|rj: int, sj: int|
                    0 <= rj < ri && 0 <= sj < schema[rj].subtypes.len() && reaches(schema, kind@, schema[rj].subtypes[sj], fuel as nat)
                        ==> #[trigger] string_set(r@).contains(schema[rj].subtypes[sj]),
            decreases schema.len() - ri,
        {
            let rec = &self.schema[ri];
            assert(schema[ri as int] == rec@);
            let mut si: usize = 0;
            while si < rec.subtypes.len()
                invariant
                    schema == self@,
                    fuel == schema.len(),
                    ri < schema.len(),
                    schema[ri as int] == rec@,
                    si <= rec.subtypes@.len(),
                    r@.len() > 0,
                    r@[0]@ == kind@,
                    forall|i: int, j: int| 0 <= i < j < r@.len() ==> r@[i]@ != r@[j]@,
                    forall|i: int| 0 <= i < r@.len() ==> #[trigger] subtypes_of(schema, kind@).contains(r@[i]@),
                    forall|rj: int, sj: int|
                        0 <= rj < ri && 0 <= sj < schema[rj].subtypes.len() && reaches(schema, kind@, schema[rj].subtypes[sj], fuel as nat)
                            ==> #[trigger] string_set(r@).contains(schema[rj].subtypes[sj]),
                    forall|sj: int|
                        0 <= sj < si && reaches(schema, kind@, schema[ri as int].subtypes[sj], fuel as nat)
                            ==> #[trigger] string_set(r@).contains(schema[ri as int].subtypes[sj]),
                decreases rec.subtypes@.len() - si,
            {
                let t = &rec.subtypes[si].ty;
                assert(schema[ri as int].subtypes[si as int] == t@);
                let ghost before = r@;
                if !holds_string(&r, t) && self.reaches_exec(kind, t, fuel) {
                    r.push(t.clone());
                    proof {
                        assert(r@[before.len() as int]@ == t@);
                        assert forall|x: Seq<char>| #![trigger string_set(r@).contains(x)] string_set(before).contains(x) implies string_set(r@).contains(x) by {
                            let i = choose|i: int| 0 <= i < before.len() && #[trigger] before[i]@ == x;
                            assert(r@[i] == before[i]);
                        }
                        assert(string_set(r@).contains(t@));
                    }
                } else if holds_string(&r, t) {
                    assert(string_set(r@).contains(t@));
                }
                si = si + 1;
            }
            ri = ri + 1;
        }
        proof {
            assert forall|x: Seq<char>| string_set(r@).contains(x) <==> subtypes_of(schema, kind@).contains(x) by {
                if subtypes_of(schema, kind@).contains(x) {
                    if x == kind@ {
                        assert(r@[0]@ == x);
                    } else {
                        lemma_reaches_named(schema, kind@, x, fuel as nat);
                        let (rj, sj) = choose|rj: int, sj: int|
                            0 <= rj < schema.len() && 0 <= sj < schema[rj].subtypes.len() && #[trigger] schema[rj].subtypes[sj] == x;
                        assert(string_set(r@).contains(schema[rj].subtypes[sj]));
                    }
                }
                if string_set(r@).contains(x) {
                    let i = choose|i: int| 0 <= i < r@.len() && #[trigger] r@[i]@ == x;
                    assert(subtypes_of(schema, kind@).contains(r@[i]@));
                }
            }
            assert(string_set(r@) =~= subtypes_of(schema, kind@));
        }
        r
    }

    /// The kinds of which a node of kind `parent_kind` may hold any number
    /// of children, as the last schema record for that kind declares them.
    pub fn list_types(&self, parent_kind: &String) -> (r: Vec<String>)
        ensures
            r@.map_values(|s: String| s@) == list_types_of(self@, parent_kind@),
    {
        let ghost schema = self@;
        let mut ri: usize = self.schema.len();
        assert(schema.subrange(0, ri as int) =~= schema);
        while ri > 0
            invariant
                schema == self@,
                ri <= schema.len(),
                last_record(schema, parent_kind@) == last_record(schema.subrange(0, ri as int), parent_kind@),
            decreases ri,
        {
            let rec = &self.schema[ri - 1];
            assert(schema[ri - 1] == rec@);
            assert(schema.subrange(0, ri as int).drop_last() =~= schema.subrange(0, ri - 1));
            if string_eq(&rec.ty, parent_kind) {
                assert(last_record(schema, parent_kind@) == Some(ri - 1));
                let mut kinds: Vec<String> = Vec::new();
                if rec.children.multiple && !rec.children.required {
                    let mut k: usize = 0;
                    while k < rec.children.types.len()
                        invariant
                            k <= rec.children.types@.len(),
                            kinds@.len() == k,
                            forall|i: int| 0 <= i < k ==> #[trigger] kinds@[i]@ == rec.children@.types[i],
                        decreases rec.children.types@.len() - k,
                    {
                        kinds.push(rec.children.types[k].ty.clone());
                        k = k + 1;
                    }
                    assert(kinds@.map_values(|s: String| s@) =~= rec.children@.types);
                } else {
                    assert(kinds@.map_values(|s: String| s@) =~= Seq::<Seq<char>>::empty());
                }
                return kinds;
            }
            ri = ri - 1;
        }
        assert(schema.subrange(0, 0) =~= Seq::<NodeSchemaView>::empty());
        let kinds: Vec<String> = Vec::new();
        assert(kinds@.map_values(|s: String| s@) =~= Seq::<Seq<char>>::empty());
        kinds
    }

    fn is_declared(&self, k: &String) -> (r: bool)
        ensures
            r == declared(self@, k@),
    {
        let ghost schema = self@;
        let mut ri: usize = 0;
        while ri < self.schema.len()
            invariant
                schema == self@,
                ri <= schema.len(),
                forall|rj: int| 0 <= rj < ri ==> #[trigger] schema[rj].ty != k@,
            decreases schema.len() - ri,
        {
            assert(schema[ri as int] == self.schema@[ri as int]@);
            if string_eq(&self.schema[ri].ty, k) {
                assert(schema[ri as int].ty == k@);
                return true;
            }
            ri = ri + 1;
        }
        false
    }

    /// Whether a node of kind `node_kind` may be deleted from under a node of
    /// kind `parent_kind`: it may, unless some field of the parent must hold
    /// exactly one node and `node_kind` is among the kinds it may hold. When
    /// the schema says nothing, the answer is yes.
    pub fn optional(&self, node_kind: &String, parent_kind: &String) -> (r: bool)
        ensures
            r == !required_in(self@, node_kind@, parent_kind@),
    {
        let ghost schema = self@;
        let fuel = self.schema.len();
        let mut ri: usize = 0;
        while ri < self.schema.len()
            invariant
                schema == self@,
                fuel == schema.len(),
                ri <= schema.len(),
                forall|rj: int, fj: int, tj: int|
                    0 <= rj < ri && schema[rj].ty == parent_kind@ && 0 <= fj < schema[rj].fields.len()
                        && schema[rj].fields[fj].required && !schema[rj].fields[fj].multiple && 0 <= tj
                        < schema[rj].fields[fj].types.len() && declared(schema, schema[rj].fields[fj].types[tj])
                        ==> !#[trigger] subtypes_of(schema, schema[rj].fields[fj].types[tj]).contains(node_kind@),
            decreases schema.len() - ri,
        {
            let rec = &self.schema[ri];
            assert(schema[ri as int] == rec@);
            if string_eq(&rec.ty, parent_kind) {
                let mut fi: usize = 0;
                while fi < rec.fields.len()
                    invariant
                        schema == self@,
                        fuel == schema.len(),
                        ri < schema.len(),
                        schema[ri as int] == rec@,
                        rec.ty@ == parent_kind@,
                        fi <= rec.fields@.len(),
                        forall|rj: int, fj: int, tj: int|
                            0 <= rj < ri && schema[rj].ty == parent_kind@ && 0 <= fj < schema[rj].fields.len()
                                && schema[rj].fields[fj].required && !schema[rj].fields[fj].multiple && 0 <= tj
                                < schema[rj].fields[fj].types.len() && declared(schema, schema[rj].fields[fj].types[tj])
                                ==> !#[trigger] subtypes_of(schema, schema[rj].fields[fj].types[tj]).contains(node_kind@),
                        forall|fj: int, tj: int|
                            0 <= fj < fi && schema[ri as int].fields[fj].required && !schema[ri as int].fields[fj].multiple && 0 <= tj
                                < schema[ri as int].fields[fj].types.len() && declared(schema, schema[ri as int].fields[fj].types[tj])
                                ==> !#[trigger] subtypes_of(schema, schema[ri as int].fields[fj].types[tj]).contains(node_kind@),
                    decreases rec.fields@.len() - fi,
                {
                    let field = &rec.fields[fi].1;
                    assert(schema[ri as int].fields[fi as int] == field@);
                    if field.required && !field.multiple {
                        let mut ti: usize = 0;
                        while ti < field.types.len()
                            invariant
                                schema == self@,
                                fuel == schema.len(),
                                ri < schema.len(),
                                schema[ri as int] == rec@,
                                fi < schema[ri as int].fields.len(),
                                schema[ri as int].fields[fi as int] == field@,
                                ti <= field.types@.len(),
                                rec.ty@ == parent_kind@,
                                field.required && !field.multiple,
                                forall|rj: int, fj: int, tj: int|
                                    0 <= rj < ri && schema[rj].ty == parent_kind@ && 0 <= fj < schema[rj].fields.len()
                                        && schema[rj].fields[fj].required && !schema[rj].fields[fj].multiple && 0 <= tj
                                        < schema[rj].fields[fj].types.len() && declared(schema, schema[rj].fields[fj].types[tj])
                                        ==> !#[trigger] subtypes_of(schema, schema[rj].fields[fj].types[tj]).contains(node_kind@),
                                forall|fj: int, tj: int|
                                    0 <= fj < fi && schema[ri as int].fields[fj].required && !schema[ri as int].fields[fj].multiple && 0 <= tj
                                        < schema[ri as int].fields[fj].types.len() && declared(schema, schema[ri as int].fields[fj].types[tj])
                                        ==> !#[trigger] subtypes_of(schema, schema[ri as int].fields[fj].types[tj]).contains(node_kind@),
                                forall|tj: int|
                                    0 <= tj < ti && declared(schema, schema[ri as int].fields[fi as int].types[tj])
                                        ==> !#[trigger] subtypes_of(schema, schema[ri as int].fields[fi as int].types[tj]).contains(node_kind@),
                            decreases field.types@.len() - ti,
                        {
                            let t = &field.types[ti].ty;
                            assert(schema[ri as int].fields[fi as int].types[ti as int] == t@);
                            if self.is_declared(t) && self.reaches_exec(t, node_kind, fuel) {
                                let ghost (r0, f0, t0) = (ri as int, fi as int, ti as int);
                                assert(subtypes_of(schema, schema[r0].fields[f0].types[t0]).contains(node_kind@));
                                assert(schema[r0].ty == parent_kind@);
                                assert(schema[r0].fields[f0].required && !schema[r0].fields[f0].multiple);
                                assert(declared(schema, schema[r0].fields[f0].types[t0]));
                                assert(required_in(schema, node_kind@, parent_kind@));
                                return false;
                            }
                            ti = ti + 1;
                        }
                    }
                    fi = fi + 1;
                }
            }
            ri = ri + 1;
        }
        true
    }
}

fn holds_string(v: &Vec<String>, x: &String) -> (r: bool)
    ensures
        r == string_set(v@).contains(x@),
{
    let mut i: usize = 0;
    while i < v.len()
        invariant
            i <= v@.len(),
            forall|j: int| 0 <= j < i ==> #[trigger] v@[j]@ != x@,
        decreases v@.len() - i,
    {
        if string_eq(&v[i], x) {
            assert(v@[i as int]@ == x@);
            return true;
        }
        i = i + 1;
    }
    false
}

/// The strings held by `v`.
pub open spec fn string_set(v: Seq<String>) -> Set<Seq<char>> {
    Set::new(|x: Seq<char>| exists|i: int| 0 <= i < v.len() && #[trigger] v[i]@ == x)
}

pub(crate) fn string_eq(a: &String, b: &String) -> (r: bool)
    ensures
        r == (a@ == b@),
{
    a.eq(b)
}

} // verus!
