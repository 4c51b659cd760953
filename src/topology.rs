//! The static assignment of layers to serving nodes, and the forwarders it
//! yields at load time.
use vstd::prelude::*;
use crate::dispatch::{BatchEntry, Forwarder, name_of, route_of};
use crate::names::{decimal, decimal_string, layer_name, layer_name_spec};
use vstd::string::*;

verus! {

/// A node of the fleet.
pub struct Node {
    /// Address and port the node's worker listens on.
    pub host: String,
    /// Free-form capability tags.
    pub description: Option<String>,
    /// Names of the layers it serves.
    pub layers: Vec<String>,
}

/// The nodes of the fleet, by name, in declaration order.
pub struct Topology {
    pub nodes: Vec<(String, Node)>,
}

pub open spec fn is_digit(c: char) -> bool {
    '0' <= c <= '9'
}

/// The number of decimal digits that end `s`.
pub open spec fn digit_suffix_len(s: Seq<char>) -> nat
    decreases s.len(),
{
    if s.len() > 0 && is_digit(s.last()) {
        digit_suffix_len(s.drop_last()) + 1
    } else {
        0
    }
}

/// The value of the decimal digits `s`.
pub open spec fn digits_value(s: Seq<char>) -> nat
    decreases s.len(),
{
    if s.len() == 0 {
        0
    } else {
        digits_value(s.drop_last()) * 10 + (s.last() as nat - '0' as nat) as nat
    }
}

/// The largest number of digits a range bound may have.
pub const MAX_BOUND_DIGITS: usize = 18;

/// The parts `(base, first, last)` of a range pattern `<base><first>-<last>`,
/// where `base` does not end in a digit and each bound has at most
/// [`MAX_BOUND_DIGITS`] digits; `None` for any other pattern.
pub open spec fn range_parts(p: Seq<char>) -> Option<(Seq<char>, nat, nat)> {
    let lb = digit_suffix_len(p);
    if lb == 0 || lb > MAX_BOUND_DIGITS || lb + 1 >= p.len() || p[p.len() - lb - 1] != '-' {
        None
    } else {
        let q = p.subrange(0, p.len() - lb - 1);
        let la = digit_suffix_len(q);
        if la == 0 || la > MAX_BOUND_DIGITS || la >= q.len() {
            None
        } else {
            Some((
                q.subrange(0, q.len() - la),
                digits_value(q.subrange(q.len() - la, q.len() as int)),
                digits_value(p.subrange(p.len() - lb, p.len() as int)),
            ))
        }
    }
}

/// Whether the layer pattern `p` names the layer `name`: a range pattern
/// names `<base><n>` for each `n` from its first to its last bound, written
/// in decimal; any other pattern names itself.
pub open spec fn layer_matches(p: Seq<char>, name: Seq<char>) -> bool {
    match range_parts(p) {
        Some((base, a, b)) => exists|n: nat| a <= n <= b && name == base + decimal(n),
        None => p == name,
    }
}

pub proof fn lemma_digit_suffix_bound(s: Seq<char>)
    ensures
        digit_suffix_len(s) <= s.len(),
        forall|k: int| s.len() - digit_suffix_len(s) <= k < s.len() ==> is_digit(#[trigger] s[k]),
        digit_suffix_len(s) < s.len() ==> !is_digit(s[s.len() - digit_suffix_len(s) - 1]),
    decreases s.len(),
{
    if s.len() > 0 && is_digit(s.last()) {
        let t = s.drop_last();
        lemma_digit_suffix_bound(t);
        assert forall|k: int| s.len() - digit_suffix_len(s) <= k < s.len() implies is_digit(#[trigger] s[k]) by {
            if k < s.len() - 1 {
                assert(s[k] == t[k]);
            }
        }
        if digit_suffix_len(s) < s.len() {
            assert(s[s.len() - digit_suffix_len(s) - 1] == t[t.len() - digit_suffix_len(t) - 1]);
        }
    }
}

pub proof fn lemma_digits_value_bound(s: Seq<char>)
    requires
        forall|k: int| 0 <= k < s.len() ==> is_digit(#[trigger] s[k]),
        s.len() <= 18,
    ensures
        digits_value(s) < pow10(s.len()),
    decreases s.len(),
{
    if s.len() > 0 {
        let t = s.drop_last();
        lemma_digits_value_bound(t);
        let d = (s.last() as nat - '0' as nat) as nat;
        assert(d <= 9);
        let v = digits_value(t);
        let p = pow10(t.len());
        assert(v * 10 + d < p * 10) by (nonlinear_arith)
            requires v < p, d <= 9;
    }
}

pub open spec fn pow10(n: nat) -> nat
    decreases n,
{
    if n == 0 { 1 } else { pow10((n - 1) as nat) * 10 }
}

pub proof fn lemma_pow10_mono(n: nat, m: nat)
    requires
        n <= m,
    ensures
        pow10(n) <= pow10(m),
    decreases m,
{
    if n < m {
        lemma_pow10_mono(n, (m - 1) as nat);
    }
}

pub proof fn lemma_pow10_18(n: nat)
    requires
        n <= 18,
    ensures
        pow10(n) <= 1000000000000000000,
{
    lemma_pow10_mono(n, 18);
    reveal_with_fuel(pow10, 19);
}

/// The number of digits that end `s`.
fn count_digit_suffix(s: &str, end: usize) -> (r: usize)
    requires
        end <= s@.len(),
    ensures
        r == digit_suffix_len(s@.subrange(0, end as int)),
{
    let mut k: usize = 0;
    while k < end && is_digit_char(s.get_char(end - 1 - k))
        invariant
            k <= end,
            end <= s@.len(),
            digit_suffix_len(s@.subrange(0, end as int)) == k + digit_suffix_len(s@.subrange(0, end - k)),
        decreases end - k,
    {
        assert(s@.subrange(0, end - k).drop_last() =~= s@.subrange(0, end - k - 1));
        k = k + 1;
    }
    if k < end {
        assert(s@.subrange(0, end - k).last() == s@[end - k - 1]);
    }
    k
}

fn is_digit_char(c: char) -> (r: bool)
    ensures
        r == is_digit(c),
{
    '0' <= c && c <= '9'
}

/// The value of the digits `s@[from..to]`.
fn parse_digits(s: &str, from: usize, to: usize) -> (r: u64)
    requires
        from <= to <= s@.len(),
        to - from <= 18,
        forall|k: int| from <= k < to ==> is_digit(#[trigger] s@[k]),
    ensures
        r == digits_value(s@.subrange(from as int, to as int)),
{
    let mut v: u64 = 0;
    let mut i: usize = from;
    while i < to
        invariant
            from <= i <= to,
            to <= s@.len(),
            to - from <= 18,
            forall|k: int| from <= k < to ==> is_digit(#[trigger] s@[k]),
            v == digits_value(s@.subrange(from as int, i as int)),
        decreases to - i,
    {
        let c = s.get_char(i);
        proof {
            let t = s@.subrange(from as int, i + 1);
            assert(t.drop_last() =~= s@.subrange(from as int, i as int));
            assert forall|k: int| 0 <= k < t.len() implies is_digit(#[trigger] t[k]) by {
                assert(t[k] == s@[from + k]);
            }
            lemma_digits_value_bound(t);
            lemma_pow10_18(t.len());
        }
        let d = (c as u32 - '0' as u32) as u64;
        v = v * 10 + d;
        i = i + 1;
    }
    v
}

/// Whether the layer pattern `pattern` names the layer `name`.
pub fn layer_pattern_matches(pattern: &String, name: &String) -> (r: bool)
    ensures
        r == layer_matches(pattern@, name@),
{
    let p = pattern.as_str();
    let len = p.unicode_len();
    let lb = count_digit_suffix(p, len);
    proof {
        assert(p@.subrange(0, len as int) =~= p@);
        lemma_digit_suffix_bound(p@);
    }
    if lb == 0 || lb > MAX_BOUND_DIGITS || lb + 1 >= len || p.get_char(len - lb - 1) != '-' {
        return pattern.eq(name);
    }
    let qlen = len - lb - 1;
    let la = count_digit_suffix(p, qlen);
    let ghost q = p@.subrange(0, qlen as int);
    proof {
        lemma_digit_suffix_bound(q);
    }
    if la == 0 || la > MAX_BOUND_DIGITS || la >= qlen {
        return pattern.eq(name);
    }
    let blen = qlen - la;
    proof {
        assert forall|k: int| blen <= k < qlen implies is_digit(#[trigger] p@[k]) by {
            assert(p@[k] == q[k]);
        }
        assert(q.subrange(blen as int, qlen as int) =~= p@.subrange(blen as int, qlen as int));
        assert(q.subrange(0, blen as int) =~= p@.subrange(0, blen as int));
    }
    let a = parse_digits(p, blen, qlen);
    let b = parse_digits(p, len - lb, len);
    let base = p.substring_char(0, blen);
    let ghost parts = range_parts(p@);
    assert(parts == Some((p@.subrange(0, blen as int), a as nat, b as nat)));
    if a > b {
        return false;
    }
    let mut n: u64 = a;
    loop
        invariant
            a <= n <= b,
            parts == Some((base@, a as nat, b as nat)),
            parts == range_parts(pattern@),
            forall|m: nat| a <= m < n ==> name@ != base@ + decimal(m),
        decreases b - n,
    {
        let mut candidate = String::from_str(base);
        let digits = decimal_string(n);
        candidate.append(digits.as_str());
        if candidate.eq(name) {
            assert(a <= n as nat <= b && name@ == base@ + decimal(n as nat));
            return true;
        }
        if n == b {
            assert forall|m: nat| a <= m <= b implies name@ != base@ + decimal(m) by {
                if m < n {
                } else {
                    assert(m == n as nat);
                }
            }
            return false;
        }
        n = n + 1;
    }
}

/// Whether `node` serves the layer named `name`: one of its layer patterns
/// names it.
pub open spec fn serves(node: Node, name: Seq<char>) -> bool {
    exists|j: int| 0 <= j < node.layers@.len() && layer_matches((#[trigger] node.layers@[j])@, name)
}

/// The first node, in declaration order, that serves `name`, if any.
pub open spec fn first_server(nodes: Seq<(String, Node)>, name: Seq<char>, k: int) -> bool {
    &&& 0 <= k < nodes.len()
    &&& serves(nodes[k].1, name)
    &&& forall|j: int| 0 <= j < k ==> !serves(#[trigger] nodes[j].1, name)
}

/// Whether `node` serves the layer `name`.
pub fn node_serves(node: &Node, name: &String) -> (r: bool)
    ensures
        r == serves(*node, name@),
{
    let mut j: usize = 0;
    while j < node.layers.len()
        invariant
            j <= node.layers@.len(),
            forall|m: int| 0 <= m < j ==> !layer_matches((#[trigger] node.layers@[m])@, name@),
        decreases node.layers@.len() - j,
    {
        if layer_pattern_matches(&node.layers[j], name) {
            return true;
        }
        j = j + 1;
    }
    false
}

impl Topology {
    /// The index of the first node that serves the layer `layer_name`.
    pub fn node_index_for_layer(&self, layer_name: &String) -> (r: Option<usize>)
        ensures
            r matches Some(k) ==> first_server(self.nodes@, layer_name@, k as int),
            r is None ==> forall|j: int|
                0 <= j < self.nodes@.len() ==> !serves(#[trigger] self.nodes@[j].1, layer_name@),
    {
        let mut k: usize = 0;
        while k < self.nodes.len()
            invariant
                k <= self.nodes@.len(),
                forall|j: int| 0 <= j < k ==> !serves(#[trigger] self.nodes@[j].1, layer_name@),
            decreases self.nodes@.len() - k,
        {
            if node_serves(&self.nodes[k].1, layer_name) {
                return Some(k);
            }
            k = k + 1;
        }
        None
    }

    /// The name and descriptor of the first node that serves the layer
    /// `layer_name`, or `None` when it runs locally.
    pub fn get_node_for_layer(&self, layer_name: &String) -> (r: Option<(&String, &Node)>)
        ensures
            r matches Some((n, node)) ==> exists|k: int|
                first_server(self.nodes@, layer_name@, k) && *n == self.nodes@[k].0 && *node
                    == self.nodes@[k].1,
            r is None ==> forall|j: int|
                0 <= j < self.nodes@.len() ==> !serves(#[trigger] self.nodes@[j].1, layer_name@),
    {
        match self.node_index_for_layer(layer_name) {
            Some(k) => Some((&self.nodes[k].0, &self.nodes[k].1)),
            None => None,
        }
    }
}

/// The forwarder that layer `i` gets: remote on its first serving node, or
/// local when no node serves it.
pub open spec fn assigned(nodes: Seq<(String, Node)>, i: nat, f: Forwarder) -> bool {
    &&& name_of(f) == layer_name_spec(i)
    &&& (forall|j: int| 0 <= j < nodes.len() ==> !serves(#[trigger] nodes[j].1, layer_name_spec(i)))
        ==> route_of(f) is None
    &&& route_of(f) is Some ==> exists|k: int|
        first_server(nodes, layer_name_spec(i), k) && f->host@ == nodes[k].1.host@ && route_of(f)
            == Some(nodes[k].0@)
    &&& (exists|k: int| 0 <= k < nodes.len() && serves(nodes[k].1, layer_name_spec(i))) ==> route_of(f) is Some
}

/// The forwarders of layers `0..num_layers`, as the topology assigns them.
pub fn load_forwarders(topology: &Topology, num_layers: usize) -> (r: Vec<Forwarder>)
    ensures
        r@.len() == num_layers,
        forall|i: int| 0 <= i < num_layers ==> assigned(topology.nodes@, i as nat, #[trigger] r@[i]),
{
    let mut out: Vec<Forwarder> = Vec::new();
    let mut i: usize = 0;
    while i < num_layers
        invariant
            i <= num_layers,
            out@.len() == i,
            forall|m: int| 0 <= m < i ==> assigned(topology.nodes@, m as nat, #[trigger] out@[m]),
        decreases num_layers - i,
    {
        let name = layer_name(i);
        let f = match topology.node_index_for_layer(&name) {
            Some(k) => Forwarder::Remote {
                layer_name: name,
                node_name: topology.nodes[k].0.clone(),
                host: topology.nodes[k].1.host.clone(),
            },
            None => Forwarder::Local { layer_name: name },
        };
        out.push(f);
        i = i + 1;
    }
    out
}

/// The first entry of `batch` whose layer `node` does not serve, if any; a
/// worker refuses a batch that holds one.
pub fn first_unserved(node: &Node, batch: &Vec<BatchEntry>) -> (r: Option<usize>)
    ensures
        r matches Some(k) ==> k < batch@.len() && !serves(*node, batch@[k as int].layer_name@)
            && forall|j: int| 0 <= j < k ==> serves(*node, (#[trigger] batch@[j]).layer_name@),
        r is None ==> forall|j: int|
            0 <= j < batch@.len() ==> serves(*node, (#[trigger] batch@[j]).layer_name@),
{
    let mut k: usize = 0;
    while k < batch.len()
        invariant
            k <= batch@.len(),
            forall|j: int| 0 <= j < k ==> serves(*node, (#[trigger] batch@[j]).layer_name@),
        decreases batch@.len() - k,
    {
        if !node_serves(node, &batch[k].layer_name) {
            return Some(k);
        }
        k = k + 1;
    }
    None
}

} // verus!
