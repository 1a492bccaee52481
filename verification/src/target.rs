//! The set of lines a continuity report is computed over: the whole system,
//! the lines downstream of a switch, or the line of a single consumer point
//! (written `bus:<id>`).

use vstd::prelude::*;
use crate::edit::{trim, trimmed_piece};
use crate::text::quoted;
use crate::topology::Network;

verus! {

/// The line of a consumer point that a report is about.
#[derive(Debug, Clone)]
pub struct PointTarget {
    /// Id of the consumer point's bus.
    pub bus: String,
    /// Index of the line with consumers the bus lies on.
    pub line: usize,
    /// Label of that line.
    pub line_label: String,
}

/// The lines a report is computed over, and how the report names them.
#[derive(Debug, Clone)]
pub struct Target {
    /// Branch indices, in increasing order.
    pub lines: Vec<usize>,
    /// Description of the set, for the report.
    pub alvo: String,
    /// The consumer point, when the report is about one.
    pub point: Option<PointTarget>,
}

/// `s` names a consumer point: it starts with `bus:`.
pub open spec fn names_point(s: Seq<char>) -> bool {
    s.len() >= 4 && s[0] == 'b' && s[1] == 'u' && s[2] == 's' && s[3] == ':'
}

/// Why the consumer point `id` has no line of its own, as the message of
/// `point_load_line`; `None` when it lies on exactly one line with consumers.
pub open spec fn point_failure(net: Network, id: Seq<char>) -> Option<Seq<char>> {
    if !net.declares(id) {
        Some("barramento '"@ + id + "' não encontrado"@)
    } else if forall|k: int| !net.is_consumer_line(k, id) {
        Some("barramento '"@ + id + "' não pertence a nenhum ramo com consumidores"@)
    } else if exists|k1: int, k2: int| k1 != k2 && #[trigger] net.is_consumer_line(k1, id)
        && #[trigger] net.is_consumer_line(k2, id) {
        Some("barramento '"@ + id + "' pertence a mais de um ramo com consumidores"@)
    } else {
        None
    }
}

fn starts_with_point_prefix(s: &str) -> (r: bool)
    ensures
        r == names_point(s@),
{
    if s.unicode_len() < 4 {
        return false;
    }
    s.get_char(0) == 'b' && s.get_char(1) == 'u' && s.get_char(2) == 's' && s.get_char(3) == ':'
}

/// `tg` covers every branch of `net`.
pub open spec fn whole_system(net: Network, tg: Target) -> bool {
    &&& tg.lines@ == Seq::new(net.branches@.len(), |k: int| k as usize)
    &&& tg.alvo@ == "sistema inteiro"@
    &&& tg.point is None
}

/// `tg` is the line of consumer point `bus`, its only line with consumers.
pub open spec fn point_target(net: Network, bus: Seq<char>, tg: Target) -> bool {
    &&& tg.lines@.len() == 1
    &&& net.is_consumer_line(tg.lines@[0] as int, bus)
    &&& tg.alvo@ == "ponto consumidor '"@ + bus + "'"@
    &&& tg.point matches Some(p) && p.bus@ == bus && p.line == tg.lines@[0]
        && p.line_label@ == net.branches@[p.line as int].spec_label()
}

/// `tg` holds the lines downstream of switch `sw`, in increasing order.
pub open spec fn downstream_target(net: Network, sw: Seq<char>, tg: Target) -> bool {
    &&& tg.alvo@ == "a jusante da chave '"@ + sw + "'"@
    &&& tg.point is None
    &&& forall|s: int| net.names_switch(s, sw) ==> {
        &&& forall|a: int, b: int| 0 <= a < b < tg.lines@.len() ==> tg.lines@[a] < tg.lines@[b]
        &&& forall|x: usize| #[trigger] tg.lines@.contains(x)
            <==> (x < net.n_branches() && net.is_downstream(s, x as int))
    }
}

/// What `resolve_target` gives for the target text `t`.
pub open spec fn resolves(net: Network, t: Seq<char>, r: Result<Target, String>) -> bool {
    if t.len() == 0 {
        r matches Ok(tg) && whole_system(net, tg)
    } else if names_point(t) {
        let bus = trim(t.skip(4));
        match point_failure(net, bus) {
            Some(msg) => r matches Err(m) && m@ == msg,
            None => r matches Ok(tg) && point_target(net, bus, tg),
        }
    } else if exists|s: int| net.names_switch(s, t) {
        r matches Ok(tg) && downstream_target(net, t, tg)
    } else {
        r matches Err(m) && m@ == "chave '"@ + t + "' não encontrada"@
    }
}

fn whole(net: &Network) -> (tg: Target)
    ensures
        whole_system(*net, tg),
{
    Target { lines: net.line_indices(), alvo: String::from_str("sistema inteiro"), point: None }
}

/// Resolves what a report is about. No target, or an empty one: every
/// branch ("sistema inteiro"). `bus:<id>`: the line of consumer point `<id>`
/// (trimmed), or the reason it has none. Anything else: the lines downstream
/// of that switch, or an error when no switch has that id.
pub fn resolve_target(net: &Network, target: Option<&str>) -> (r: Result<Target, String>)
    ensures
        target is None ==> (r matches Ok(tg) && whole_system(*net, tg)),
        target matches Some(t) ==> resolves(*net, t@, r),
{
    let t = match target {
        None => {
            return Ok(whole(net));
        },
        Some(t) => t,
    };
    let n = t.unicode_len();
    if n == 0 {
        return Ok(whole(net));
    }
    if starts_with_point_prefix(t) {
        let bus = match trimmed_piece(t, 4, n) {
            Some(p) => p,
            None => String::new(),
        };
        assert(t@.subrange(4, n as int) =~= t@.skip(4));
        assert(bus@ == trim(t@.skip(4)));
        match net.point_load_line(bus.as_str()) {
            Err(e) => {
                Err(e.message())
            },
            Ok(line) => {
                let label = net.branches[line].label();
                let alvo = quoted("ponto consumidor '", bus.as_str(), "'");
                let mut lines: Vec<usize> = Vec::new();
                lines.push(line);
                Ok(Target { lines, alvo, point: Some(PointTarget { bus, line, line_label: label }) })
            },
        }
    } else {
        match net.downstream_lines(t) {
            Some(lines) => {
                let alvo = quoted("a jusante da chave '", t, "'");
                Ok(Target { lines, alvo, point: None })
            },
            None => Err(quoted("chave '", t, "' não encontrada")),
        }
    }
}

} // verus!
