use vstd::prelude::*;

use fdt::node::FdtNode;
use fdt::Fdt;
use fdt::FdtError;

use crate::blob::{blob_ok, check_blob, header_ok};
use crate::error::OfError;
use crate::parsing::{be_u32_at, be_u32_of, read_u32_cell};
use crate::phandle_arg::{entry_matches, lookup_count, name_of, OfPhandleArgs, OfPhandleIterator};
use crate::phandle_list::{nth_spec, MAX_PHANDLE_ARGS};
use crate::predicates::{compatible_matches, device_status_available, availability, lists_intersect, property_text, trim_nuls};
use vstd::string::StringSliceAdditionalSpecFns;
use vstd::utf8::valid_utf8;

verus! {

/// A parsed blob of the `fdt` crate, carried through unopened.
#[verifier::external_type_specification]
#[verifier::external_body]
pub struct ExFdt<'a>(Fdt<'a>);

/// A node of the `fdt` crate, carried through unopened.
#[verifier::external_type_specification]
#[verifier::external_body]
pub struct ExFdtNode<'b, 'a: 'b>(FdtNode<'b, 'a>);

/// Why the `fdt` crate refused a blob; mapped to `OfError::NotRegistered`.
#[verifier::external_type_specification]
#[verifier::external_body]
pub struct ExFdtError(FdtError);

/// The bytes a parsed blob was made from.
pub uninterp spec fn fdt_bytes(f: Fdt) -> Seq<u8>;

/// The bytes of the blob a node was read from.
pub uninterp spec fn node_blob(node: FdtNode) -> Seq<u8>;

/// Every node of the tree, as `fdt::Fdt::all_nodes` walks them.
pub uninterp spec fn nodes_of(f: Fdt) -> Seq<FdtNode>;

/// The strings of a node's `compatible` property, as `fdt` splits them.
pub uninterp spec fn compat_of(node: FdtNode) -> Option<Seq<Seq<u8>>>;

/// The node `fdt::Fdt::find_node` finds at `path`.
pub uninterp spec fn path_node(f: Fdt, path: Seq<char>) -> Option<FdtNode>;

/// The nodes `fdt::Fdt::find_all_nodes` finds at `path`.
pub uninterp spec fn path_nodes(f: Fdt, path: Seq<char>) -> Seq<FdtNode>;

/// Relies on `fdt::Fdt::new`: it reads the forty-byte header and takes the
/// blob when the magic number is right and the total size fits the buffer.
pub assume_specification<'a>[ Fdt::<'a>::new ](data: &'a [u8]) -> (r: Result<Fdt<'a>, FdtError>)
    ensures
        r is Ok <==> header_ok(data@),
        r is Ok ==> fdt_bytes(r->Ok_0) == data@,
;

/// The node whose `phandle` property holds `ph`, as `fdt::Fdt::find_phandle` finds it.
pub uninterp spec fn phandle_target(f: Fdt, ph: u32) -> Option<FdtNode>;

/// The value of a node's first property called `name`.
pub uninterp spec fn prop_bytes(node: FdtNode, name: Seq<char>) -> Option<Seq<u8>>;

/// Relies on `fdt::Fdt::find_phandle`: the first node whose `phandle` property
/// holds the given value, read from the same blob; on a blob that `blob_ok`
/// admits its walk does not panic.
#[verifier::external_body]
fn node_by_phandle<'b, 'a>(f: &'b Fdt<'a>, phandle: u32) -> (r: Option<FdtNode<'b, 'a>>)
    requires
        blob_ok(fdt_bytes(*f)),
    ensures
        r == phandle_target(*f, phandle),
        r is Some ==> node_blob(r->0) == fdt_bytes(*f),
{
    f.find_phandle(phandle)
}

/// Relies on `fdt::node::FdtNode::property` and the `value` field of what it
/// returns: the bytes of the node's first property called `name`; on a blob
/// that `blob_ok` admits its walk does not panic.
#[verifier::external_body]
pub(crate) fn property_value<'b, 'a>(node: FdtNode<'b, 'a>, name: &str) -> (r: Option<&'a [u8]>)
    requires
        blob_ok(node_blob(node)),
    ensures
        r is None ==> prop_bytes(node, name@) is None,
        r is Some ==> prop_bytes(node, name@) == Some(r->0@),
{
    node.property(name).map(|p| p.value)
}

/// Relies on `fdt::Fdt::all_nodes`: every node of the tree, in order, each read
/// from the same blob; on a blob that `blob_ok` admits it does not panic.
#[verifier::external_body]
fn all_nodes<'b, 'a>(f: &'b Fdt<'a>) -> (r: Vec<FdtNode<'b, 'a>>)
    requires
        blob_ok(fdt_bytes(*f)),
    ensures
        r@ == nodes_of(*f),
        forall|i: int| 0 <= i < r@.len() ==> node_blob(#[trigger] r@[i]) == fdt_bytes(*f),
{
    f.all_nodes().collect()
}

/// Relies on `fdt::node::FdtNode::compatible` and `fdt::standard_nodes::Compatible::all`:
/// the strings of the node's `compatible` property, if it has one; on a blob
/// that `blob_ok` admits they do not panic.
#[verifier::external_body]
fn compatible_strings<'b, 'a>(node: FdtNode<'b, 'a>) -> (r: Option<Vec<&'a str>>)
    requires
        blob_ok(node_blob(node)),
    ensures
        compat_of(node) == opt_strs(r),
{
    match node.compatible() {
        Some(c) => Some(c.all().collect()),
        None => None,
    }
}

/// Relies on `fdt::Fdt::find_node`: the first node at `path`, read from the same
/// blob. On a blob that `blob_ok` admits it does not panic, and for a path
/// that starts with `/` it returns: when no node is found there it looks the
/// path up among the aliases, and no property name of such a blob starts
/// with `/`, so no alias is followed. Such a blob's first node is a root
/// with an empty name, which `/` always finds.
#[verifier::external_body]
fn node_at_path<'b, 'a>(f: &'b Fdt<'a>, path: &str) -> (r: Option<FdtNode<'b, 'a>>)
    requires
        blob_ok(fdt_bytes(*f)),
        path@.len() > 0,
        path@[0] == '/',
    ensures
        r == path_node(*f, path@),
        r is Some ==> node_blob(r->0) == fdt_bytes(*f),
        path@ == seq!['/'] ==> r is Some,
{
    f.find_node(path)
}

/// Relies on `fdt::Fdt::find_all_nodes`: every node at `path`, read from the same
/// blob; on a blob that `blob_ok` admits it does not panic.
#[verifier::external_body]
fn nodes_at_path<'b, 'a>(f: &'b Fdt<'a>, path: &'a str) -> (r: Vec<FdtNode<'b, 'a>>)
    requires
        blob_ok(fdt_bytes(*f)),
    ensures
        r@ == path_nodes(*f, path@),
        forall|i: int| 0 <= i < r@.len() ==> node_blob(#[trigger] r@[i]) == fdt_bytes(*f),
{
    f.find_all_nodes(path).collect()
}

/// The bytes of each string of `v`.
pub open spec fn str_bytes(v: Seq<&str>) -> Seq<Seq<u8>> {
    v.map_values(|s: &str| s.spec_bytes())
}

/// The bytes of each string of a compatible list, if there is one.
pub open spec fn opt_strs(c: Option<Vec<&str>>) -> Option<Seq<Seq<u8>>> {
    match c {
        Some(v) => Some(str_bytes(v@)),
        None => None,
    }
}

/// The bytes of a piece of text, if there is one.
pub open spec fn opt_text(r: Option<&str>) -> Option<Seq<u8>> {
    match r {
        Some(s) => Some(s.spec_bytes()),
        None => None,
    }
}

/// The text of a string property: its bytes without trailing NULs, when they are UTF-8.
pub open spec fn text_spec(v: Option<Seq<u8>>) -> Option<Seq<u8>> {
    match v {
        Some(b) => if valid_utf8(trim_nuls(b)) {
            Some(trim_nuls(b))
        } else {
            None
        },
        None => None,
    }
}

/// The `index`-th 32-bit cell of a property value, if it holds one.
pub open spec fn cell_spec(v: Option<Seq<u8>>, index: int) -> Option<u32> {
    match v {
        Some(b) => if 4 * index + 4 <= b.len() {
            Some(be_u32_of(b, 4 * index))
        } else {
            None
        },
        None => None,
    }
}

/// A machine's name: the text of its `model` property when that is valid
/// text, else the first string of its compatible list.
pub open spec fn machine_name_spec(model: Option<Seq<u8>>, compats: Option<Seq<Seq<u8>>>) -> Option<Seq<u8>> {
    if text_spec(model) is Some {
        text_spec(model)
    } else {
        match compats {
            Some(c) => if c.len() > 0 {
                Some(c[0])
            } else {
                None
            },
            None => None,
        }
    }
}

/// The nodes of `nodes` whose compatible list (`compats` at the same
/// position) names one of `with`, in order.
pub open spec fn selected<N>(nodes: Seq<N>, compats: Seq<Option<Seq<Seq<u8>>>>, with: Seq<&str>) -> Seq<N>
    decreases nodes.len(),
{
    if nodes.len() == 0 {
        Seq::empty()
    } else {
        let k = nodes.len() - 1;
        let rest = selected(nodes.take(k), compats.take(k), with);
        if node_matches(compats[k], with) {
            rest.push(nodes[k])
        } else {
            rest
        }
    }
}

/// Whether a node with the compatible list `c` (`None`: no such property)
/// names one of `with`.
pub open spec fn node_matches(c: Option<Seq<Seq<u8>>>, with: Seq<&str>) -> bool {
    &&& c is Some
    &&& exists|i: int, j: int|
        0 <= i < c->0.len() && 0 <= j < with.len() && #[trigger] c->0[i] == #[trigger] with[j].spec_bytes()
}

/// A compatibility search keeps exactly the nodes whose compatible list
/// names one of the identifiers: every node it keeps matches, every node that
/// matches is kept, and an identifier that no node names gives an empty
/// result.
pub proof fn lemma_selected_exact<N>(nodes: Seq<N>, compats: Seq<Option<Seq<Seq<u8>>>>, with: Seq<&str>)
    requires
        nodes.len() == compats.len(),
    ensures
        forall|k: int|
            0 <= k < selected(nodes, compats, with).len() ==> exists|i: int|
                0 <= i < nodes.len() && nodes[i] == #[trigger] selected(nodes, compats, with)[k]
                    && node_matches(#[trigger] compats[i], with),
        forall|i: int|
            0 <= i < nodes.len() && node_matches(#[trigger] compats[i], with) ==> selected(
                nodes,
                compats,
                with,
            ).contains(nodes[i]),
        (forall|i: int| 0 <= i < nodes.len() ==> !node_matches(#[trigger] compats[i], with))
            ==> selected(nodes, compats, with).len() == 0,
    decreases nodes.len(),
{
    if nodes.len() > 0 {
        let k = nodes.len() - 1;
        let nt = nodes.take(k);
        let ct = compats.take(k);
        lemma_selected_exact(nt, ct, with);
        let rest = selected(nt, ct, with);
        let sel = selected(nodes, compats, with);
        assert forall|j: int| 0 <= j < sel.len() implies exists|i: int|
            0 <= i < nodes.len() && nodes[i] == #[trigger] sel[j] && node_matches(#[trigger] compats[i], with) by {
            if j < rest.len() {
                let i = choose|i: int| 0 <= i < nt.len() && nt[i] == rest[j] && node_matches(#[trigger] ct[i], with);
                assert(nodes[i] == sel[j] && compats[i] == ct[i]);
            } else {
                assert(nodes[k] == sel[j] && node_matches(compats[k], with));
            }
        }
        assert forall|i: int| 0 <= i < nodes.len() && node_matches(#[trigger] compats[i], with) implies sel.contains(nodes[i]) by {
            if i < k {
                assert(ct[i] == compats[i] && nt[i] == nodes[i]);
                let x = choose|x: int| 0 <= x < rest.len() && rest[x] == nt[i];
                assert(sel[x] == rest[x]);
            } else {
                assert(sel[sel.len() - 1] == nodes[k]);
            }
        }
        if forall|i: int| 0 <= i < nodes.len() ==> !node_matches(#[trigger] compats[i], with) {
            assert forall|i: int| 0 <= i < nt.len() implies !node_matches(#[trigger] ct[i], with) by {
                assert(ct[i] == compats[i]);
            }
            assert(!node_matches(compats[k], with));
        }
    }
}

/// A compatible list names one of `with` exactly when its bytes do.
proof fn lemma_matches_bytes(c: Seq<&str>, with: Seq<&str>)
    ensures
        node_matches(Some(str_bytes(c)), with) == lists_intersect(c, with),
{
    let v = str_bytes(c);
    let sv: Option<Seq<Seq<u8>>> = Some(v);
    if lists_intersect(c, with) {
        let (x, y) = choose|x: int, y: int|
            0 <= x < c.len() && 0 <= y < with.len() && #[trigger] c[x].spec_bytes()
                == #[trigger] with[y].spec_bytes();
        assert(sv->0[x] == with[y].spec_bytes());
    } else {
        assert forall|x: int, y: int|
            0 <= x < v.len() && 0 <= y < with.len() implies #[trigger] sv->0[x]
                != #[trigger] with[y].spec_bytes() by {
            assert(v[x] == c[x].spec_bytes());
        }
    }
}

/// Keeps, in order, the nodes whose compatible list names one of `with`.
pub fn select_compatible<'b, 'a>(
    nodes: Vec<FdtNode<'b, 'a>>,
    compats: Vec<Option<Vec<&'a str>>>,
    with: &[&str],
) -> (r: Vec<FdtNode<'b, 'a>>)
    requires
        nodes@.len() == compats@.len(),
    ensures
        r@ == selected(nodes@, compats@.map_values(|c: Option<Vec<&'a str>>| opt_strs(c)), with@),
{
    let ghost cs = compats@.map_values(|c: Option<Vec<&'a str>>| opt_strs(c));
    let mut r: Vec<FdtNode<'b, 'a>> = Vec::new();
    let mut i: usize = 0;
    while i < nodes.len()
        invariant
            nodes@.len() == compats@.len(),
            i <= nodes@.len(),
            cs == compats@.map_values(|c: Option<Vec<&'a str>>| opt_strs(c)),
            r@ == selected(nodes@.take(i as int), cs.take(i as int), with@),
        decreases nodes@.len() - i,
    {
        assert(nodes@.take(i + 1).take(i as int) =~= nodes@.take(i as int));
        assert(cs.take(i + 1).take(i as int) =~= cs.take(i as int));
        let m = match &compats[i] {
            None => {
                assert(cs[i as int] is None);
                false
            },
            Some(c) => {
                let cl = c.as_slice();
                let b = compatible_matches(cl, with);
                assert(cl@ == c@);
                proof {
                    lemma_matches_bytes(c@, with@);
                }
                b
            },
        };
        assert(m == node_matches(cs[i as int], with@));
        assert(nodes@.take(i + 1)[i as int] == nodes@[i as int]);
        assert(cs.take(i + 1)[i as int] == cs[i as int]);
        if m {
            r.push(nodes[i]);
        }
        i = i + 1;
    }
    assert(nodes@.take(nodes@.len() as int) =~= nodes@);
    assert(cs.take(cs.len() as int) =~= cs);
    r
}

/// The name of a machine: the text of its `model` property when it has one
/// that is valid text, else the first string of its compatible list.
pub fn pick_machine_name<'a>(model: Option<&'a [u8]>, compats: Option<Vec<&'a str>>) -> (r: Option<&'a str>)
    ensures
        opt_text(r) == machine_name_spec(
            match model {
                Some(m) => Some(m@),
                None => None,
            },
            opt_strs(compats),
        ),
{
    if let Some(m) = model {
        if let Some(name) = property_text(m) {
            return Some(name);
        }
    }
    match compats {
        Some(c) => if c.len() > 0 {
            Some(c[0])
        } else {
            None
        },
        None => None,
    }
}

/// The registered devicetree blob, through which every query goes.
pub struct MachineFdt<'a> {
    data: &'a [u8],
    fdt: Fdt<'a>,
}

impl<'a> MachineFdt<'a> {
    /// The parsed tree.
    pub closed spec fn tree(&self) -> Fdt<'a> {
        self.fdt
    }

    /// The bytes of the blob.
    pub closed spec fn bytes(&self) -> Seq<u8> {
        self.data@
    }

    /// The blob is well formed and the tree was parsed from it.
    pub open spec fn wf(&self) -> bool {
        &&& blob_ok(self.bytes())
        &&& fdt_bytes(self.tree()) == self.bytes()
    }

    /// Takes the blob at `data`; fails with `NotRegistered` unless its header,
    /// block offsets and structure block are well formed (see `blob_ok`).
    /// That check is stricter than the devicetree format: a blob holding
    /// `FDT_NOP` tokens, as one edited in place may, is refused too.
    pub fn new(data: &'a [u8]) -> (r: Result<MachineFdt<'a>, OfError>)
        ensures
            r is Ok <==> blob_ok(data@),
            r is Ok ==> r->Ok_0.wf() && r->Ok_0.bytes() == data@,
            r is Err ==> r->Err_0 == OfError::NotRegistered,
    {
        if !check_blob(data) {
            return Err(OfError::NotRegistered);
        }
        match Fdt::new(data) {
            Ok(fdt) => Ok(MachineFdt { data, fdt }),
            Err(_) => Err(OfError::NotRegistered),
        }
    }

    /// The node whose phandle is `phandle`.
    pub fn find_phandle(&self, phandle: u32) -> (r: Option<FdtNode<'_, 'a>>)
        requires
            self.wf(),
        ensures
            r == phandle_target(self.tree(), phandle),
            r is Some ==> node_blob(r->0) == self.bytes(),
    {
        node_by_phandle(&self.fdt, phandle)
    }

    /// The parsed blob, for readers this library does not cover.
    pub fn inner(&self) -> (r: &Fdt<'a>)
        ensures
            *r == self.tree(),
    {
        &self.fdt
    }
}

/// The machine's name: the root's `model` text, else its first compatible string.
pub fn machin_name<'a>(fdt: &MachineFdt<'a>) -> (r: Option<&'a str>)
    requires
        fdt.wf(),
    ensures
        path_node(fdt.tree(), "/"@) is Some,
        opt_text(r) == machine_name_spec(
            prop_bytes(path_node(fdt.tree(), "/"@)->0, "model"@),
            compat_of(path_node(fdt.tree(), "/"@)->0),
        ),
{
    proof {
        reveal_strlit("/");
        assert("/"@ =~= seq!['/']);
    }
    match node_at_path(&fdt.fdt, "/") {
        None => None,
        Some(root) => pick_machine_name(property_value(root, "model"), compatible_strings(root)),
    }
}

/// Every node whose `compatible` property names one of `with`, in tree order.
pub fn find_compatible_node<'b, 'a>(fdt: &'b MachineFdt<'a>, with: &[&str]) -> (r: Vec<FdtNode<'b, 'a>>)
    requires
        fdt.wf(),
    ensures
        r@ == selected(
            nodes_of(fdt.tree()),
            nodes_of(fdt.tree()).map_values(|n: FdtNode| compat_of(n)),
            with@,
        ),
        forall|i: int| 0 <= i < r@.len() ==> node_blob(#[trigger] r@[i]) == fdt.bytes(),
{
    let nodes = all_nodes(&fdt.fdt);
    let mut compats: Vec<Option<Vec<&'a str>>> = Vec::new();
    let mut i: usize = 0;
    while i < nodes.len()
        invariant
            fdt.wf(),
            nodes@ == nodes_of(fdt.tree()),
            forall|k: int| 0 <= k < nodes@.len() ==> node_blob(#[trigger] nodes@[k]) == fdt.bytes(),
            i <= nodes@.len(),
            compats@.len() == i,
            forall|k: int| 0 <= k < i ==> opt_strs(#[trigger] compats@[k]) == compat_of(nodes@[k]),
        decreases nodes@.len() - i,
    {
        assert(node_blob(nodes@[i as int]) == fdt.bytes());
        compats.push(compatible_strings(nodes[i]));
        i = i + 1;
    }
    assert(compats@.map_values(|c: Option<Vec<&'a str>>| opt_strs(c)) =~= nodes@.map_values(
        |n: FdtNode| compat_of(n),
    ));
    let r = select_compatible(nodes, compats, with);
    proof {
        lemma_selected_exact(nodes@, nodes@.map_values(|n: FdtNode| compat_of(n)), with@);
        assert forall|k: int| 0 <= k < r@.len() implies node_blob(#[trigger] r@[k]) == fdt.bytes() by {
            let x = choose|x: int| 0 <= x < nodes@.len() && nodes@[x] == r@[k];
        }
    }
    r
}

/// Whether the device of `node` is enabled, from its `status` property.
pub fn of_device_is_available<'b, 'a>(node: FdtNode<'b, 'a>) -> (r: Result<bool, OfError>)
    requires
        blob_ok(node_blob(node)),
    ensures
        r == availability(prop_bytes(node, "status"@)),
{
    device_status_available(property_value(node, "status"))
}

/// The `index`-th 32-bit cell of the property `name` of `node`.
pub fn of_property_read_u32<'b, 'a>(node: FdtNode<'b, 'a>, name: &str, index: usize) -> (r: Option<u32>)
    requires
        blob_ok(node_blob(node)),
    ensures
        r == cell_spec(prop_bytes(node, name@), index as int),
{
    match property_value(node, name) {
        None => None,
        Some(v) => read_u32_cell(v, index),
    }
}

/// The boot arguments in `/chosen`.
pub fn bootargs<'a>(fdt: &MachineFdt<'a>) -> (r: Option<&'a str>)
    requires
        fdt.wf(),
    ensures
        match path_node(fdt.tree(), "/chosen"@) {
            None => r is None,
            Some(chosen) => opt_text(r) == text_spec(prop_bytes(chosen, "bootargs"@)),
        },
{
    proof {
        reveal_strlit("/chosen");
    }
    match node_at_path(&fdt.fdt, "/chosen") {
        None => None,
        Some(chosen) => match property_value(chosen, "bootargs") {
            None => None,
            Some(v) => property_text(v),
        },
    }
}

/// The size of the blob, as its header gives it.
pub fn fdt_size(fdt: &MachineFdt) -> (r: usize)
    requires
        fdt.wf(),
    ensures
        r == be_u32_of(fdt.bytes(), 4),
{
    match be_u32_at(fdt.data, 4) {
        Ok(v) => v as usize,
        Err(_) => 0,
    }
}

/// A `/memory` node.
pub struct Memory<'b, 'a> {
    pub node: FdtNode<'b, 'a>,
}

/// The firmware-call (PSCI) node.
pub struct Pcsi<'b, 'a> {
    pub node: FdtNode<'b, 'a>,
}

impl<'b, 'a> Pcsi<'b, 'a> {
    /// The calling method, such as "smc" or "hvc".
    pub fn method(&self) -> (r: Option<&'a str>)
        requires
            blob_ok(node_blob(self.node)),
        ensures
            opt_text(r) == text_spec(prop_bytes(self.node, "method"@)),
    {
        match property_value(self.node, "method") {
            None => None,
            Some(v) => property_text(v),
        }
    }

    /// The function identifier that starts a CPU.
    pub fn cpu_on(&self) -> (r: Option<u32>)
        requires
            blob_ok(node_blob(self.node)),
        ensures
            r == cell_spec(prop_bytes(self.node, "cpu_on"@), 0),
    {
        of_property_read_u32(self.node, "cpu_on", 0)
    }

    /// The function identifier that stops the calling CPU.
    pub fn cpu_off(&self) -> (r: Option<u32>)
        requires
            blob_ok(node_blob(self.node)),
        ensures
            r == cell_spec(prop_bytes(self.node, "cpu_off"@), 0),
    {
        of_property_read_u32(self.node, "cpu_off", 0)
    }

    /// The function identifier that suspends the calling CPU.
    pub fn cpu_suspend(&self) -> (r: Option<u32>)
        requires
            blob_ok(node_blob(self.node)),
        ensures
            r == cell_spec(prop_bytes(self.node, "cpu_suspend"@), 0),
    {
        of_property_read_u32(self.node, "cpu_suspend", 0)
    }
}

/// Every `/memory` node.
pub fn memory_nodes<'b, 'a>(fdt: &'b MachineFdt<'a>) -> (r: Vec<Memory<'b, 'a>>)
    requires
        fdt.wf(),
    ensures
        r@.len() == path_nodes(fdt.tree(), "/memory"@).len(),
        forall|k: int| 0 <= k < r@.len() ==> (#[trigger] r@[k]).node == path_nodes(fdt.tree(), "/memory"@)[k],
        forall|k: int| 0 <= k < r@.len() ==> node_blob((#[trigger] r@[k]).node) == fdt.bytes(),
{
    let nodes = nodes_at_path(&fdt.fdt, "/memory");
    let mut r: Vec<Memory<'b, 'a>> = Vec::new();
    let mut i: usize = 0;
    while i < nodes.len()
        invariant
            i <= nodes@.len(),
            r@.len() == i,
            forall|k: int| 0 <= k < i ==> r@[k].node == nodes@[k],
            forall|k: int| 0 <= k < nodes@.len() ==> node_blob(#[trigger] nodes@[k]) == fdt.bytes(),
        decreases nodes@.len() - i,
    {
        r.push(Memory { node: nodes[i] });
        i = i + 1;
    }
    assert forall|k: int| 0 <= k < r@.len() implies node_blob((#[trigger] r@[k]).node) == fdt.bytes() by {
        assert(r@[k].node == nodes@[k]);
    }
    r
}

/// The PSCI node, if the tree has one.
pub fn pcsi<'b, 'a>(fdt: &'b MachineFdt<'a>) -> (r: Option<Pcsi<'b, 'a>>)
    requires
        fdt.wf(),
    ensures
        match path_node(fdt.tree(), "/psci"@) {
            None => r is None,
            Some(n) => r is Some && r->0.node == n && node_blob(n) == fdt.bytes(),
        },
{
    proof {
        reveal_strlit("/psci");
    }
    match node_at_path(&fdt.fdt, "/psci") {
        None => None,
        Some(node) => Some(Pcsi { node }),
    }
}

/// The node whose phandle is `phandle`.
pub fn find_phandle<'b, 'a>(fdt: &'b MachineFdt<'a>, phandle: u32) -> (r: Option<FdtNode<'b, 'a>>)
    requires
        fdt.wf(),
    ensures
        r == phandle_target(fdt.tree(), phandle),
        r is Some ==> node_blob(r->0) == fdt.bytes(),
{
    fdt.find_phandle(phandle)
}

/// The `index`-th entry of the phandle list `list_name` of `node`; with
/// `cell_name`, each entry's cell count is that property of the node its
/// phandle names, else entries carry no cells. `Ok(None)` when the node has
/// no such list or the list ends first.
pub fn of_parse_phandle_with_args<'m, 'a>(
    fdt: &'m MachineFdt<'a>,
    node: FdtNode<'m, 'a>,
    list_name: &str,
    cell_name: Option<&'m str>,
    index: usize,
) -> (r: Result<Option<OfPhandleArgs<'m, 'a>>, OfError>)
    requires
        fdt.wf(),
        node_blob(node) == fdt.bytes(),
    ensures
        match prop_bytes(node, list_name@) {
            None => r == Ok::<Option<OfPhandleArgs<'m, 'a>>, OfError>(None),
            Some(list) => entry_matches(
                r,
                nth_spec(list, |ph: u32| lookup_count(fdt.tree(), ph, name_of(cell_name), 0), index as nat),
                node,
            ),
        },
{
    match OfPhandleIterator::new(fdt, node, list_name, cell_name, 0) {
        None => Ok(None),
        Some(mut it) => {
            let ghost start = it;
            let r = it.nth(index);
            assert(start.remaining() =~= start.list());
            assert(start.lookup() == (|ph: u32| lookup_count(fdt.tree(), ph, name_of(cell_name), 0)));
            r
        },
    }
}

} // verus!
