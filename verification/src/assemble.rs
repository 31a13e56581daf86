//! Resolving external references: the inverse of `stepq split --master`.
//!
//! A master file keeps, of each component, a stub — product, formation,
//! definition, shape definition and a shape without geometry — and a
//! CAx-IF external reference (`applied_document_reference` to a
//! `document_file`) naming the file that holds the component. Assembling
//! replaces every stub with the component file's own instances, renamed
//! after the master's, points every reference to a stub at the component's
//! counterpart, and drops the reference entities.
//!
//! This module finds the external references of a file, and the instances
//! around a product definition that a merge renames: its formation, its
//! shape definitions and their links to shapes. Nothing is evaluated.
use vstd::prelude::*;
use crate::lint::{
    first_rec, items_at, list_items, param_slice, params_of, rec_named, ref_at, ref_param, references_among,
    references_in_items,
};
use crate::model::graph::Graph;
use crate::p21::exchange::{param_tokens, Exchange, Instance, Record};
use crate::p21::lexer::Token;
use crate::p21::string::{decode_string, decoded};

verus! {

// ---------------------------------------------------------------------
// Records and attributes.
// ---------------------------------------------------------------------

/// A string attribute: parameter `i` of `ts`, decoded; `None` if it is
/// unset or not a string.
pub open spec fn text_param(src: Seq<u8>, ts: Seq<Token>, i: nat) -> Option<Seq<char>> {
    let pt = param_tokens(ts, i);
    if pt.len() == 1 {
        match decoded(src, pt[0].span) {
            Ok(t) => Some(t),
            Err(_) => None,
        }
    } else {
        None
    }
}

/// The first record of node `n` of `g`.
pub open spec fn first_record(g: Graph, n: int) -> Option<(Token, Seq<Token>)> {
    let ex = g.exchange_view();
    let recs = ex.records_view(ex.instances_view()[n]);
    if recs.len() > 0 {
        Some(recs[0])
    } else {
        None
    }
}

/// True if the first record of node `n` of `g` is named `name`.
pub open spec fn first_is(g: Graph, n: int, name: &str) -> bool {
    match first_record(g, n) {
        Some(r) => rec_named(g.exchange_view().src_view(), r, name),
        None => false,
    }
}

/// The first record of `node`.
pub(crate) fn first_of<'g>(graph: &'g Graph, node: usize) -> (r: Option<Record<'g>>)
    requires
        graph.wf(),
        node < graph.exchange_view().instances_view().len(),
    ensures
        match first_record(*graph, node as int) {
            Some(rec) => r matches Some(v) && v.wf() && v.src_view() == graph.exchange_view().src_view()
                && v.name_token() == rec.0 && v.params_view() == rec.1,
            None => r is None,
        },
{
    let mut records = graph.exchange().records(graph.instance(node));
    records.next()
}

/// True if the first record of `node` is named `name`.
fn first_named(graph: &Graph, node: usize, name: &str) -> (b: bool)
    requires
        graph.wf(),
        node < graph.exchange_view().instances_view().len(),
    ensures
        b == first_is(*graph, node as int, name),
{
    match first_of(graph, node) {
        Some(record) => record.is(name),
        None => false,
    }
}

/// Parameter `index` of `record` as a decoded string.
fn text_at(src: &[u8], record: Record, index: usize) -> (r: Option<String>)
    requires
        record.wf(),
        record.src_view() == src@,
        src@.len() < usize::MAX,
    ensures
        match text_param(record.src_view(), record.params_view(), index as nat) {
            Some(t) => r matches Some(s) && s@ == t,
            None => r is None,
        },
{
    let pt = param_slice(record, index);
    if pt.len() == 1 {
        match decode_string(src, pt[0].span) {
            Ok(text) => Some(text),
            Err(_) => None,
        }
    } else {
        None
    }
}

// ---------------------------------------------------------------------
// Nodes that belong to a reference.
// ---------------------------------------------------------------------

/// True if `node` is referred to by `owner` and by nothing else.
pub open spec fn only_from(g: Graph, node: usize, owner: usize) -> bool {
    g.backward_view()[node as int] == seq![owner]
}

/// The nodes of `s`, other than `except`, that only `owner` refers to.
pub open spec fn owned_by(g: Graph, s: Seq<usize>, owner: usize, except: Option<usize>) -> Seq<usize>
    decreases s.len(),
{
    if s.len() == 0 {
        Seq::empty()
    } else {
        let x = s.last();
        owned_by(g, s.drop_last(), owner, except) + if except != Some(x) && only_from(g, x, owner) {
            seq![x]
        } else {
            Seq::empty()
        }
    }
}

/// The nodes of `s` whose first record is a
/// `property_definition_representation`.
pub open spec fn definition_links(g: Graph, s: Seq<usize>) -> Seq<usize>
    decreases s.len(),
{
    if s.len() == 0 {
        Seq::empty()
    } else {
        let x = s.last();
        definition_links(g, s.drop_last()) + if first_is(g, x as int, "PROPERTY_DEFINITION_REPRESENTATION") {
            seq![x]
        } else {
            Seq::empty()
        }
    }
}

/// True if every one of `s` is a node of `g`.
pub open spec fn nodes_of(g: Graph, s: Seq<usize>) -> bool {
    forall|k: int| 0 <= k < s.len() ==> #[trigger] s[k] < g.exchange_view().instances_view().len()
}

pub(crate) proof fn lemma_neighbours_are_nodes(g: Graph, n: int)
    requires
        g.wf(),
        0 <= n < g.exchange_view().instances_view().len(),
    ensures
        nodes_of(g, g.forward_view()[n]),
        nodes_of(g, g.backward_view()[n]),
{
    let f = g.forward_view()[n];
    let b = g.backward_view()[n];
    assert forall|k: int| 0 <= k < f.len() implies #[trigger] f[k] < g.exchange_view().instances_view().len() by {
        assert(f.contains(f[k]));
        assert(crate::model::graph::targets_of(g.exchange_view(), n).contains(f[k]));
    }
    assert forall|k: int| 0 <= k < b.len() implies #[trigger] b[k] < g.exchange_view().instances_view().len() by {
        assert(b.contains(b[k]));
    }
}

/// True if only `owner` refers to `node`.
fn only_from_exec(graph: &Graph, node: usize, owner: usize) -> (b: bool)
    requires
        graph.wf(),
        node < graph.exchange_view().instances_view().len(),
    ensures
        b == only_from(*graph, node, owner),
{
    let users = graph.referenced_by(node);
    if users.len() == 1 && users[0] == owner {
        proof {
            assert(users@ =~= seq![owner]);
        }
        true
    } else {
        false
    }
}

/// Appends the nodes of `s`, other than `except`, that only `owner`
/// refers to.
fn push_owned(graph: &Graph, s: &[usize], owner: usize, except: Option<usize>, chain: &mut Vec<usize>)
    requires
        graph.wf(),
        nodes_of(*graph, s@),
    ensures
        final(chain)@ == old(chain)@ + owned_by(*graph, s@, owner, except),
{
    let ghost start = chain@;
    let mut k: usize = 0;
    while k < s.len()
        invariant
            graph.wf(),
            nodes_of(*graph, s@),
            k <= s@.len(),
            chain@ == start + owned_by(*graph, s@.take(k as int), owner, except),
        decreases s@.len() - k,
    {
        let x = s[k];
        proof {
            assert(s@.take(k + 1).drop_last() =~= s@.take(k as int));
            assert(s@.take(k + 1).last() == x);
            assert(x < graph.exchange_view().instances_view().len());
        }
        let keep = match except {
            Some(e) => e != x,
            None => true,
        };
        if keep && only_from_exec(graph, x, owner) {
            chain.push(x);
        }
        proof {
            assert(chain@ =~= start + owned_by(*graph, s@.take(k + 1), owner, except));
        }
        k = k + 1;
    }
    proof {
        assert(s@.take(k as int) =~= s@);
    }
}

/// Appends the nodes of `s` whose first record is a
/// `property_definition_representation`.
fn push_definition_links(graph: &Graph, s: &[usize], chain: &mut Vec<usize>)
    requires
        graph.wf(),
        nodes_of(*graph, s@),
    ensures
        final(chain)@ == old(chain)@ + definition_links(*graph, s@),
{
    let ghost start = chain@;
    let mut k: usize = 0;
    while k < s.len()
        invariant
            graph.wf(),
            nodes_of(*graph, s@),
            k <= s@.len(),
            chain@ == start + definition_links(*graph, s@.take(k as int)),
        decreases s@.len() - k,
    {
        let x = s[k];
        proof {
            assert(s@.take(k + 1).drop_last() =~= s@.take(k as int));
            assert(s@.take(k + 1).last() == x);
            assert(x < graph.exchange_view().instances_view().len());
        }
        if first_named(graph, x, "PROPERTY_DEFINITION_REPRESENTATION") {
            chain.push(x);
        }
        proof {
            assert(chain@ =~= start + definition_links(*graph, s@.take(k + 1)));
        }
        k = k + 1;
    }
    proof {
        assert(s@.take(k as int) =~= s@);
    }
}


// ---------------------------------------------------------------------
// External references.
// ---------------------------------------------------------------------

/// One external reference: the file, as the reference names it, the stub
/// product definition it stands for, and the nodes of the reference
/// entities.
#[derive(Debug, Clone, PartialEq, Eq)]
pub struct Link {
    /// The file that holds the component.
    pub file: String,
    /// The `#id` of the stub's product definition.
    pub stub: u64,
    /// The nodes of the entities that make up the reference.
    pub chain: Vec<usize>,
}

/// A [`Link`] as plain values.
pub struct LinkView {
    pub file: Seq<char>,
    pub stub: u64,
    pub chain: Seq<usize>,
}

impl View for Link {
    type V = LinkView;

    open spec fn view(&self) -> LinkView {
        LinkView { file: self.file@, stub: self.stub, chain: self.chain@ }
    }
}

/// The views of `v`.
pub open spec fn link_views(v: Seq<Link>) -> Seq<LinkView> {
    v.map_values(|l: Link| l@)
}

/// The document node that node `n` names, if `n` is a simple
/// `applied_document_reference` whose document the file defines.
pub open spec fn reference_document(g: Graph, n: int) -> Option<usize> {
    let ex = g.exchange_view();
    match first_record(g, n) {
        Some(r) => if rec_named(ex.src_view(), r, "APPLIED_DOCUMENT_REFERENCE") && !ex.instances_view()[n].complex {
            match ref_param(r.1, 0) {
                Some(id) => if ex.index_view().contains_key(id) {
                    Some(ex.index_view()[id])
                } else {
                    None
                },
                None => None,
            }
        } else {
            None
        },
        None => None,
    }
}

/// The first `DOCUMENT_FILE` record of node `d`.
pub open spec fn file_record(g: Graph, d: usize) -> Option<(Token, Seq<Token>)> {
    let ex = g.exchange_view();
    let recs = ex.records_view(ex.instances_view()[d as int]);
    match first_rec(ex.src_view(), recs, "DOCUMENT_FILE", 0) {
        Some(k) => Some(recs[k]),
        None => None,
    }
}

/// A file name an external identification assignment gives, if it gives
/// one: not empty and not starting with `#`.
pub open spec fn assigned_name(t: Option<Seq<char>>) -> Option<Seq<char>> {
    match t {
        Some(id) => if id.len() > 0 && id[0] != '#' {
            Some(id)
        } else {
            None
        },
        None => None,
    }
}

/// The file name and chain after looking at `user`, a node that refers to
/// the document `d`.
pub open spec fn user_step(g: Graph, d: usize, user: usize, file: Seq<char>, chain: Seq<usize>) -> (Seq<char>, Seq<usize>) {
    let src = g.exchange_view().src_view();
    match first_record(g, user as int) {
        Some(r) => if rec_named(src, r, "APPLIED_EXTERNAL_IDENTIFICATION_ASSIGNMENT") {
            let f = match assigned_name(text_param(src, r.1, 0)) {
                Some(id) => id,
                None => file,
            };
            (f, chain.push(user) + owned_by(g, g.forward_view()[user as int], user, Some(d)))
        } else if rec_named(src, r, "DOCUMENT_REPRESENTATION_TYPE") || (rec_named(src, r, "PROPERTY_DEFINITION")
            && text_param(src, r.1, 0) == Some("external definition"@)) {
            (file, chain.push(user) + definition_links(g, g.backward_view()[user as int]))
        } else {
            (file, chain)
        },
        None => (file, chain),
    }
}

/// The file name and chain after looking at each of `users` in turn.
pub open spec fn users_fold(g: Graph, d: usize, users: Seq<usize>, file: Seq<char>, chain: Seq<usize>) -> (Seq<char>, Seq<usize>)
    decreases users.len(),
{
    if users.len() == 0 {
        (file, chain)
    } else {
        let (f, c) = users_fold(g, d, users.drop_last(), file, chain);
        user_step(g, d, users.last(), f, c)
    }
}

/// The chain after looking at `user`, a node that refers to the reference
/// node `n`.
pub open spec fn role_step(g: Graph, n: usize, user: usize, chain: Seq<usize>) -> Seq<usize> {
    if first_is(g, user as int, "ROLE_ASSOCIATION") {
        chain.push(user) + owned_by(g, g.forward_view()[user as int], user, Some(n))
    } else {
        chain
    }
}

/// The chain after looking at each of `users` in turn.
pub open spec fn roles_fold(g: Graph, n: usize, users: Seq<usize>, chain: Seq<usize>) -> Seq<usize>
    decreases users.len(),
{
    if users.len() == 0 {
        chain
    } else {
        role_step(g, n, users.last(), roles_fold(g, n, users.drop_last(), chain))
    }
}

/// The stubs the reference at node `n` lists, in order.
pub open spec fn stubs_of(g: Graph, n: int) -> Seq<u64> {
    match first_record(g, n) {
        Some(r) => match list_items(r.1, 2) {
            Some(items) => references_among(params_of(items)),
            None => Seq::empty(),
        },
        None => Seq::empty(),
    }
}

/// The file name and chain of the reference at node `n`, if `n` is an
/// `applied_document_reference` to a `document_file`.
pub open spec fn link_parts(g: Graph, n: int) -> Option<(Seq<char>, Seq<usize>)> {
    let src = g.exchange_view().src_view();
    match reference_document(g, n) {
        Some(d) => match file_record(g, d) {
            Some(fr) => {
                let file0 = match text_param(src, fr.1, 0) {
                    Some(t) => t,
                    None => Seq::empty(),
                };
                let chain0 = seq![n as usize, d] + owned_by(g, g.forward_view()[d as int], d, None);
                let (file, chain1) = users_fold(g, d, g.backward_view()[d as int], file0, chain0);
                Some((file, roles_fold(g, n as usize, g.backward_view()[n], chain1)))
            },
            None => None,
        },
        None => None,
    }
}

/// The external references that node `n` makes, one per stub it lists.
pub open spec fn node_links(g: Graph, n: int) -> Seq<LinkView> {
    match link_parts(g, n) {
        Some((file, chain)) => stubs_of(g, n).map_values(|stub: u64| LinkView { file, stub, chain }),
        None => Seq::empty(),
    }
}

/// The external references of the first `k` nodes, in order.
pub open spec fn links_upto(g: Graph, k: int) -> Seq<LinkView>
    decreases k,
{
    if k <= 0 {
        Seq::empty()
    } else {
        links_upto(g, k - 1) + node_links(g, k - 1)
    }
}

/// True if `t` is `"external definition"`.
fn is_external_definition(t: &Option<String>) -> (b: bool)
    ensures
        b == (match t {
            Some(s) => s@ == "external definition"@,
            None => false,
        }),
{
    match t {
        Some(s) => {
            let expected = crate::text::owned("external definition");
            *s == expected
        },
        None => false,
    }
}

/// The file name that `t` assigns, if it assigns one.
fn assigned(t: Option<String>) -> (r: Option<String>)
    ensures
        match assigned_name(match t {
            Some(s) => Some(s@),
            None => None,
        }) {
            Some(id) => r matches Some(s) && s@ == id,
            None => r is None,
        },
{
    match t {
        Some(id) => {
            let text = id.as_str();
            if text.unicode_len() > 0 && text.get_char(0) != '#' {
                Some(id)
            } else {
                None
            }
        },
        None => None,
    }
}

/// The document node that `node` names, with the reference record, if
/// `node` is a simple `applied_document_reference`.
fn document_of<'g>(graph: &'g Graph, node: usize) -> (r: Option<(Record<'g>, usize)>)
    requires
        graph.wf(),
        node < graph.exchange_view().instances_view().len(),
    ensures
        match reference_document(*graph, node as int) {
            Some(d) => r matches Some((rec, doc)) && doc == d && d < graph.exchange_view().instances_view().len()
                && rec.wf() && rec.src_view() == graph.exchange_view().src_view() && first_record(
                *graph,
                node as int,
            ) == Some((rec.name_token(), rec.params_view())),
            None => r is None,
        },
{
    let reference = match first_of(graph, node) {
        Some(r) => r,
        None => {
            return None;
        },
    };
    if !reference.is("APPLIED_DOCUMENT_REFERENCE") || graph.instance(node).is_complex() {
        return None;
    }
    match ref_at(reference, 0) {
        Some(id) => match graph.node(id) {
            Some(d) => Some((reference, d)),
            None => None,
        },
        None => None,
    }
}

/// The file name and chain after looking at the nodes that refer to the
/// document `document`.
fn document_users(graph: &Graph, document: usize, file: String, chain: Vec<usize>) -> (r: (String, Vec<usize>))
    requires
        graph.wf(),
        document < graph.exchange_view().instances_view().len(),
    ensures
        (r.0@, r.1@) == users_fold(*graph, document, graph.backward_view()[document as int], file@, chain@),
{
    let ghost g = *graph;
    let ghost file0 = file@;
    let ghost chain0 = chain@;
    let source = graph.exchange().source();
    let users = graph.referenced_by(document);
    proof {
        lemma_neighbours_are_nodes(g, document as int);
    }
    let mut file = file;
    let mut chain = chain;
    let mut j: usize = 0;
    while j < users.len()
        invariant
            graph.wf(),
            g == *graph,
            source@ == g.exchange_view().src_view(),
            nodes_of(g, users@),
            users@ == g.backward_view()[document as int],
            j <= users@.len(),
            (file@, chain@) == users_fold(g, document, users@.take(j as int), file0, chain0),
        decreases users@.len() - j,
    {
        let user = users[j];
        proof {
            assert(users@.take(j + 1).drop_last() =~= users@.take(j as int));
            assert(users@.take(j + 1).last() == user);
            assert(user < g.exchange_view().instances_view().len());
            lemma_neighbours_are_nodes(g, user as int);
        }
        match first_of(graph, user) {
            Some(record) => {
                if record.is("APPLIED_EXTERNAL_IDENTIFICATION_ASSIGNMENT") {
                    match assigned(text_at(source, record, 0)) {
                        Some(id) => {
                            file = id;
                        },
                        None => {},
                    }
                    chain.push(user);
                    push_owned(graph, graph.references(user), user, Some(document), &mut chain);
                } else if record.is("DOCUMENT_REPRESENTATION_TYPE") || (record.is("PROPERTY_DEFINITION")
                    && is_external_definition(&text_at(source, record, 0))) {
                    chain.push(user);
                    push_definition_links(graph, graph.referenced_by(user), &mut chain);
                }
            },
            None => {},
        }
        j = j + 1;
    }
    proof {
        assert(users@.take(j as int) =~= users@);
    }
    (file, chain)
}

/// The chain after looking at the nodes that refer to the reference
/// `node`.
fn reference_roles(graph: &Graph, node: usize, chain: Vec<usize>) -> (r: Vec<usize>)
    requires
        graph.wf(),
        node < graph.exchange_view().instances_view().len(),
    ensures
        r@ == roles_fold(*graph, node, graph.backward_view()[node as int], chain@),
{
    let ghost g = *graph;
    let ghost chain0 = chain@;
    let users = graph.referenced_by(node);
    proof {
        lemma_neighbours_are_nodes(g, node as int);
    }
    let mut chain = chain;
    let mut j: usize = 0;
    while j < users.len()
        invariant
            graph.wf(),
            g == *graph,
            nodes_of(g, users@),
            users@ == g.backward_view()[node as int],
            j <= users@.len(),
            chain@ == roles_fold(g, node, users@.take(j as int), chain0),
        decreases users@.len() - j,
    {
        let user = users[j];
        proof {
            assert(users@.take(j + 1).drop_last() =~= users@.take(j as int));
            assert(users@.take(j + 1).last() == user);
            assert(user < g.exchange_view().instances_view().len());
            lemma_neighbours_are_nodes(g, user as int);
        }
        if first_named(graph, user, "ROLE_ASSOCIATION") {
            chain.push(user);
            push_owned(graph, graph.references(user), user, Some(node), &mut chain);
        }
        j = j + 1;
    }
    proof {
        assert(users@.take(j as int) =~= users@);
    }
    chain
}

/// The file name and chain of the reference at `node`, which names
/// `document`.
#[verifier::rlimit(40)]
fn reference_parts(graph: &Graph, node: usize, document: usize) -> (r: Option<(String, Vec<usize>)>)
    requires
        graph.wf(),
        node < graph.exchange_view().instances_view().len(),
        reference_document(*graph, node as int) == Some(document),
    ensures
        match link_parts(*graph, node as int) {
            Some((f, c)) => r matches Some((file, chain)) && file@ == f && chain@ == c,
            None => r is None,
        },
{
    let ghost g = *graph;
    let exchange = graph.exchange();
    let source = exchange.source();
    let records = exchange.records(graph.instance(document)).to_vec();
    let ghost recs = g.exchange_view().records_view(g.exchange_view().instances_view()[document as int]);
    let k = match crate::lint::find_rec(&records, "DOCUMENT_FILE", Ghost(g.exchange_view().src_view()), Ghost(recs)) {
        Some(k) => k,
        None => {
            return None;
        },
    };
    let file = match text_at(source, records[k], 0) {
        Some(t) => t,
        None => String::new(),
    };
    let mut chain: Vec<usize> = Vec::new();
    chain.push(node);
    chain.push(document);
    proof {
        lemma_neighbours_are_nodes(g, document as int);
        assert(chain@ =~= seq![node, document]);
    }
    push_owned(graph, graph.references(document), document, None, &mut chain);
    let (file, chain) = document_users(graph, document, file, chain);
    let chain = reference_roles(graph, node, chain);
    Some((file, chain))
}

/// Appends the external references that `node` makes.
fn push_node_links(graph: &Graph, node: usize, links: &mut Vec<Link>)
    requires
        graph.wf(),
        node < graph.exchange_view().instances_view().len(),
    ensures
        link_views(final(links)@) == link_views(old(links)@) + node_links(*graph, node as int),
{
    let ghost g = *graph;
    let ghost start = link_views(links@);
    let (reference, document) = match document_of(graph, node) {
        Some(found) => found,
        None => {
            proof {
                assert(link_views(links@) =~= start + node_links(g, node as int));
            }
            return;
        },
    };
    let (file, chain) = match reference_parts(graph, node, document) {
        Some(parts) => parts,
        None => {
            proof {
                assert(link_views(links@) =~= start + node_links(g, node as int));
            }
            return;
        },
    };
    let stubs = match items_at(reference, 2) {
        Some(items) => references_in_items(graph.exchange().source(), items),
        None => Vec::new(),
    };
    proof {
        assert(stubs@ == stubs_of(g, node as int));
    }
    push_stub_links(&stubs, &file, &chain, links);
    proof {
        assert(link_views(links@) =~= start + node_links(g, node as int));
    }
}

/// Appends a link to `file` with `chain` for each of `stubs`.
fn push_stub_links(stubs: &Vec<u64>, file: &String, chain: &Vec<usize>, links: &mut Vec<Link>)
    ensures
        link_views(final(links)@) == link_views(old(links)@) + stubs@.map_values(
            |stub: u64| LinkView { file: file@, stub, chain: chain@ },
        ),
{
    let ghost start = link_views(links@);
    let ghost made = |stub: u64| LinkView { file: file@, stub, chain: chain@ };
    let mut j: usize = 0;
    while j < stubs.len()
        invariant
            j <= stubs@.len(),
            made == (|stub: u64| LinkView { file: file@, stub, chain: chain@ }),
            link_views(links@) == start + stubs@.take(j as int).map_values(made),
        decreases stubs@.len() - j,
    {
        let ghost before = links@;
        let copy = chain.clone();
        proof {
            assert(copy@ =~= chain@);
        }
        links.push(Link { file: file.clone(), stub: stubs[j], chain: copy });
        proof {
            assert(stubs@.take(j + 1).map_values(made) =~= stubs@.take(j as int).map_values(made).push(
                made(stubs@[j as int]),
            ));
            assert(link_views(links@) =~= link_views(before).push(links@.last()@));
        }
        j = j + 1;
    }
    proof {
        assert(stubs@.take(j as int) =~= stubs@);
    }
}

/// Every `applied_document_reference` to a `document_file`, once per item
/// it lists, in file order.
///
/// The file is the `document_file`'s id, or the name an
/// `applied_external_identification_assignment` of the document gives. The
/// chain holds the reference and document nodes, the nodes only the
/// document refers to, the document's identification assignments,
/// representation types and external-definition properties (with the
/// nodes that belong to them), and the role associations of the
/// reference.
pub fn links(graph: &Graph) -> (v: Vec<Link>)
    requires
        graph.wf(),
    ensures
        link_views(v@) == links_upto(*graph, graph.exchange_view().instances_view().len() as int),
{
    let mut out: Vec<Link> = Vec::new();
    let mut node: usize = 0;
    let n = graph.len();
    proof {
        assert(link_views(out@) =~= links_upto(*graph, 0));
    }
    while node < n
        invariant
            graph.wf(),
            n == graph.exchange_view().instances_view().len(),
            node <= n,
            link_views(out@) == links_upto(*graph, node as int),
        decreases n - node,
    {
        push_node_links(graph, node, &mut out);
        node = node + 1;
    }
    out
}

// ---------------------------------------------------------------------
// What a merge renames.
// ---------------------------------------------------------------------

/// The highest instance name of `exchange`; 0 if it has none.
pub fn max_id(exchange: &Exchange) -> (m: u64)
    ensures
        forall|i: int|
            0 <= i < exchange.instances_view().len() ==> (#[trigger] exchange.instances_view()[i]).id <= m,
        exchange.instances_view().len() == 0 ==> m == 0,
        exchange.instances_view().len() > 0 ==> exists|i: int|
            0 <= i < exchange.instances_view().len() && (#[trigger] exchange.instances_view()[i]).id == m,
{
    let instances = exchange.instances();
    let mut m: u64 = 0;
    let mut k: usize = 0;
    while k < instances.len()
        invariant
            instances@ == exchange.instances_view(),
            k <= instances@.len(),
            forall|i: int| 0 <= i < k ==> (#[trigger] instances@[i]).id <= m,
            k == 0 ==> m == 0,
            k > 0 ==> exists|i: int| 0 <= i < k && (#[trigger] instances@[i]).id == m,
        decreases instances@.len() - k,
    {
        if instances[k].id > m || k == 0 {
            m = instances[k].id;
        }
        k = k + 1;
    }
    m
}

/// The formation that product definition `#id` names, attribute 2.
pub open spec fn formation_of(ex: Exchange, id: u64) -> Option<u64> {
    if ex.index_view().contains_key(id) {
        let recs = ex.records_view(ex.instances_view()[ex.index_view()[id] as int]);
        if recs.len() > 0 {
            ref_param(recs[0].1, 2)
        } else {
            None
        }
    } else {
        None
    }
}

/// The formation a product definition names, attribute 2.
pub fn formation(exchange: &Exchange, definition: u64) -> (r: Option<u64>)
    requires
        exchange.wf(),
    ensures
        r == formation_of(*exchange, definition),
{
    let instance = match exchange.get(definition) {
        Some(i) => i,
        None => {
            return None;
        },
    };
    let mut records = exchange.records(instance);
    match records.next() {
        Some(record) => ref_at(record, 2),
        None => None,
    }
}

/// True if the first record of node `n` is named `entity` and its
/// attribute `index` refers to `#target`.
pub open spec fn points_at(g: Graph, n: int, entity: &str, index: nat, target: u64) -> bool {
    match first_record(g, n) {
        Some(r) => rec_named(g.exchange_view().src_view(), r, entity) && ref_param(r.1, index) == Some(target),
        None => false,
    }
}

/// The `#id` of node `n`.
pub open spec fn id_of(g: Graph, n: int) -> u64 {
    g.exchange_view().instances_view()[n].id
}

/// The `#id`s of the `shape_definition_representation`s among `users`
/// that name the shape `#shape`.
pub open spec fn shape_links(g: Graph, users: Seq<usize>, shape: u64) -> Seq<u64>
    decreases users.len(),
{
    if users.len() == 0 {
        Seq::empty()
    } else {
        let x = users.last();
        shape_links(g, users.drop_last(), shape) + if points_at(g, x as int, "SHAPE_DEFINITION_REPRESENTATION", 0, shape) {
            seq![id_of(g, x as int)]
        } else {
            Seq::empty()
        }
    }
}

/// The `product_definition_shape`s among `users` that name the definition
/// `#definition`, each with its shape links.
pub open spec fn shapes_among(g: Graph, users: Seq<usize>, definition: u64) -> Seq<(u64, Seq<u64>)>
    decreases users.len(),
{
    if users.len() == 0 {
        Seq::empty()
    } else {
        let x = users.last();
        shapes_among(g, users.drop_last(), definition) + if points_at(g, x as int, "PRODUCT_DEFINITION_SHAPE", 2, definition) {
            seq![(id_of(g, x as int), shape_links(g, g.backward_view()[x as int], id_of(g, x as int)))]
        } else {
            Seq::empty()
        }
    }
}

/// Each `product_definition_shape` of the definition `#definition`, with
/// the `shape_definition_representation`s of it.
pub open spec fn shape_definitions_of(g: Graph, definition: u64) -> Seq<(u64, Seq<u64>)> {
    let ex = g.exchange_view();
    if ex.index_view().contains_key(definition) {
        shapes_among(g, g.backward_view()[ex.index_view()[definition] as int], definition)
    } else {
        Seq::empty()
    }
}

/// The views of `v`.
pub open spec fn shape_views(v: Seq<(u64, Vec<u64>)>) -> Seq<(u64, Seq<u64>)> {
    v.map_values(|p: (u64, Vec<u64>)| (p.0, p.1@))
}

/// True if the first record of `node` is named `entity` and its
/// attribute `index` refers to `#target`.
pub(crate) fn points_at_exec(graph: &Graph, node: usize, entity: &str, index: usize, target: u64) -> (b: bool)
    requires
        graph.wf(),
        node < graph.exchange_view().instances_view().len(),
    ensures
        b == points_at(*graph, node as int, entity, index as nat, target),
{
    match first_of(graph, node) {
        Some(record) => record.is(entity) && ref_at(record, index) == Some(target),
        None => false,
    }
}

/// The `#id`s of the shape definition representations among the users of
/// the shape at `node`.
fn shape_links_of(graph: &Graph, node: usize) -> (v: Vec<u64>)
    requires
        graph.wf(),
        node < graph.exchange_view().instances_view().len(),
    ensures
        v@ == shape_links(*graph, graph.backward_view()[node as int], id_of(*graph, node as int)),
{
    let ghost g = *graph;
    let id = graph.instance(node).id;
    let users = graph.referenced_by(node);
    proof {
        lemma_neighbours_are_nodes(g, node as int);
    }
    let mut out: Vec<u64> = Vec::new();
    let mut j: usize = 0;
    while j < users.len()
        invariant
            graph.wf(),
            g == *graph,
            nodes_of(g, users@),
            j <= users@.len(),
            out@ == shape_links(g, users@.take(j as int), id),
        decreases users@.len() - j,
    {
        let x = users[j];
        proof {
            assert(users@.take(j + 1).drop_last() =~= users@.take(j as int));
            assert(users@.take(j + 1).last() == x);
            assert(x < g.exchange_view().instances_view().len());
        }
        if points_at_exec(graph, x, "SHAPE_DEFINITION_REPRESENTATION", 0, id) {
            out.push(graph.instance(x).id);
        }
        proof {
            assert(out@ =~= shape_links(g, users@.take(j + 1), id));
        }
        j = j + 1;
    }
    proof {
        assert(users@.take(j as int) =~= users@);
    }
    out
}

/// Each `product_definition_shape` of `definition`, with the
/// `shape_definition_representation`s of it.
pub fn shape_definitions(graph: &Graph, definition: u64) -> (v: Vec<(u64, Vec<u64>)>)
    requires
        graph.wf(),
    ensures
        shape_views(v@) == shape_definitions_of(*graph, definition),
{
    let ghost g = *graph;
    let node = match graph.node(definition) {
        Some(n) => n,
        None => {
            let v: Vec<(u64, Vec<u64>)> = Vec::new();
            proof {
                assert(shape_views(v@) =~= shape_definitions_of(g, definition));
            }
            return v;
        },
    };
    let users = graph.referenced_by(node);
    proof {
        lemma_neighbours_are_nodes(g, node as int);
    }
    let mut out: Vec<(u64, Vec<u64>)> = Vec::new();
    let mut j: usize = 0;
    proof {
        assert(shape_views(out@) =~= shapes_among(g, users@.take(0), definition));
    }
    while j < users.len()
        invariant
            graph.wf(),
            g == *graph,
            nodes_of(g, users@),
            j <= users@.len(),
            shape_views(out@) == shapes_among(g, users@.take(j as int), definition),
        decreases users@.len() - j,
    {
        let x = users[j];
        proof {
            assert(users@.take(j + 1).drop_last() =~= users@.take(j as int));
            assert(users@.take(j + 1).last() == x);
            assert(x < g.exchange_view().instances_view().len());
        }
        let ghost before = out@;
        if points_at_exec(graph, x, "PRODUCT_DEFINITION_SHAPE", 2, definition) {
            let links = shape_links_of(graph, x);
            out.push((graph.instance(x).id, links));
            proof {
                assert(shape_views(out@) =~= shape_views(before).push((out@.last().0, out@.last().1@)));
            }
        }
        proof {
            assert(shape_views(out@) =~= shapes_among(g, users@.take(j + 1), definition));
        }
        j = j + 1;
    }
    proof {
        assert(users@.take(j as int) =~= users@);
    }
    out
}

} // verus!
