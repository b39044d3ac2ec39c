//! The language-model agent: its configuration, its system prompt, and how
//! an action is picked out of a chatty answer. Talking to the model server is
//! the runner's business.
use vstd::prelude::*;
use crate::types::{
    BuildingType, ErrorCode, BOARD_W, BOARD_H, ACTION_LIMIT, spec_building_name, spec_cost, spec_range_sq,
    spec_damage, spec_bonus_vs_armor, spec_splash_sq, spec_hits_air, spec_income, spec_building_types,
    building_types, stats_of, spec_error_str, spec_error_message,
};
use crate::text::{chars_of, push_decimal, spec_decimal};

verus! {

/// Configuration and counters of a language-model agent.
pub struct Llm {
    pub name: String,
    pub host: String,
    /// Model to ask for, on servers that host several.
    pub model: Option<String>,
    pub max_tokens: u32,
    /// Whether the model's reasoning is left on.
    pub thinking: bool,
    pub tokens: u64,
    pub parse_failures: u32,
}

// ------------------------------------------------------------ parsing the agent spec

/// `s` without the suffix `suf`, if it ends with it.
pub open spec fn spec_strip_suffix(s: Seq<char>, suf: Seq<char>) -> Option<Seq<char>> {
    if s.len() >= suf.len() && s.subrange(s.len() - suf.len(), s.len() as int) == suf {
        Some(s.subrange(0, s.len() - suf.len()))
    } else {
        None
    }
}

/// Index of the first `c` in `s`, if any.
pub open spec fn spec_find(s: Seq<char>, c: char) -> Option<int> {
    if exists|i: int| 0 <= i < s.len() && s[i] == c {
        Some(choose|i: int| 0 <= i < s.len() && s[i] == c && forall|j: int| 0 <= j < i ==> s[j] != c)
    } else {
        None
    }
}

/// `s` cut around its first `c`.
pub open spec fn spec_split_once(s: Seq<char>, c: char) -> Option<(Seq<char>, Seq<char>)> {
    match spec_find(s, c) {
        Some(i) => Some((s.subrange(0, i), s.subrange(i + 1, s.len() as int))),
        None => None,
    }
}

/// `s` without any number of leading `http://`.
pub open spec fn spec_trim_scheme(s: Seq<char>) -> Seq<char>
    decreases s.len(),
{
    if s.len() >= 7 && s.subrange(0, 7) == "http://"@ {
        spec_trim_scheme(s.subrange(7, s.len() as int))
    } else {
        s
    }
}

/// `s` without any number of trailing `/`.
pub open spec fn spec_trim_slashes(s: Seq<char>) -> Seq<char>
    decreases s.len(),
{
    if s.len() > 0 && s.last() == '/' {
        spec_trim_slashes(s.drop_last())
    } else {
        s
    }
}

/// The parts of an agent spec `name@host:port#model+nothink`: name, host,
/// model and whether reasoning stays on.
pub open spec fn spec_llm_parts(spec: Seq<char>) -> (Seq<char>, Seq<char>, Option<Seq<char>>, bool) {
    let (s, thinking) = match spec_strip_suffix(spec, "+nothink"@) {
        Some(t) => (t, false),
        None => (spec, true),
    };
    let (name, rest) = match spec_split_once(s, '@') {
        Some(p) => p,
        None => ("llm"@, s),
    };
    let (host, model) = match spec_split_once(rest, '#') {
        Some((h, m)) => (h, Some(m)),
        None => (rest, None),
    };
    (name, spec_trim_slashes(spec_trim_scheme(host)), model, thinking)
}

/// Index of the first `c` in `cs[from..]`.
fn find_char(cs: &Vec<char>, c: char) -> (r: Option<usize>)
    ensures
        match r {
            Some(i) => spec_find(cs@, c) == Some(i as int) && i < cs@.len() && cs@[i as int] == c,
            None => spec_find(cs@, c) is None,
        },
{
    let mut i: usize = 0;
    while i < cs.len()
        invariant
            i <= cs@.len(),
            forall|j: int| 0 <= j < i ==> cs@[j] != c,
        decreases cs@.len() - i,
    {
        if cs[i] == c {
            proof {
                let k = choose|k: int| 0 <= k < cs@.len() && cs@[k] == c && forall|j: int| 0 <= j < k ==> cs@[j] != c;
                if k < i {
                } else if k > i {
                    assert(cs@[i as int] != c);
                }
            }
            return Some(i);
        }
        i += 1;
    }
    None
}

/// `s` cut around its first `c`.
fn split_once<'a>(s: &'a str, c: char) -> (r: Option<(&'a str, &'a str)>)
    ensures
        match r {
            Some((a, b)) => spec_split_once(s@, c) == Some((a@, b@)),
            None => spec_split_once(s@, c) is None,
        },
{
    let cs = chars_of(s);
    match find_char(&cs, c) {
        Some(i) => {
            let n = cs.len();
            Some((s.substring_char(0, i), s.substring_char(i + 1, n)))
        },
        None => None,
    }
}

pub(crate) fn strip_suffix<'a>(s: &'a str, suf: &str) -> (r: Option<&'a str>)
    ensures
        match r {
            Some(t) => spec_strip_suffix(s@, suf@) == Some(t@),
            None => spec_strip_suffix(s@, suf@) is None,
        },
{
    let n = s.unicode_len();
    let m = suf.unicode_len();
    if n < m {
        return None;
    }
    let tail = s.substring_char(n - m, n);
    if crate::text::str_eq(tail, suf) {
        Some(s.substring_char(0, n - m))
    } else {
        None
    }
}

fn trim_scheme<'a>(s: &'a str) -> (r: &'a str)
    ensures
        r@ == spec_trim_scheme(s@),
{
    let mut t = s;
    let mut n = t.unicode_len();
    while n >= 7 && crate::text::str_eq(t.substring_char(0, 7), "http://")
        invariant
            n == t@.len(),
            spec_trim_scheme(t@) == spec_trim_scheme(s@),
        decreases n,
    {
        t = t.substring_char(7, n);
        n = n - 7;
    }
    t
}

fn trim_slashes<'a>(s: &'a str) -> (r: &'a str)
    ensures
        r@ == spec_trim_slashes(s@),
{
    let mut n = s.unicode_len();
    assert(s@.subrange(0, n as int) =~= s@);
    while n > 0 && s.get_char(n - 1) == '/'
        invariant
            n <= s@.len(),
            spec_trim_slashes(s@.subrange(0, n as int)) == spec_trim_slashes(s@),
        decreases n,
    {
        assert(s@.subrange(0, n as int).drop_last() =~= s@.subrange(0, n - 1));
        n = n - 1;
    }
    s.substring_char(0, n)
}

impl Llm {
    /// An agent from its spec `name@host:port`: an optional `#model` after the
    /// host names the model on servers hosting several, a `+nothink` suffix
    /// turns the model's reasoning off.
    pub fn new(spec: &str) -> (l: Self)
        ensures
            ({
                let (name, host, model, thinking) = spec_llm_parts(spec@);
                &&& l.name@ == name
                &&& l.host@ == host
                &&& (match l.model {
                    Some(m) => model == Some(m@),
                    None => model is None,
                })
                &&& l.thinking == thinking
                &&& l.max_tokens == 1400
                &&& l.tokens == 0
                &&& l.parse_failures == 0
            }),
    {
        let (spec, thinking) = match strip_suffix(spec, "+nothink") {
            Some(s) => (s, false),
            None => (spec, true),
        };
        let (name, rest) = match split_once(spec, '@') {
            Some(p) => p,
            None => ("llm", spec),
        };
        let (host, model) = match split_once(rest, '#') {
            Some((h, m)) => (h, Some(String::from_str(m))),
            None => (rest, None),
        };
        Llm {
            name: String::from_str(name),
            host: String::from_str(trim_slashes(trim_scheme(host))),
            model,
            max_tokens: 1400,
            thinking,
            tokens: 0,
            parse_failures: 0,
        }
    }
}


impl Llm {
    /// Records an unusable answer at attempt `attempt` (0 or 1): the first
    /// failure raises the answer budget, since a reasoning model may not reach
    /// its JSON object within the first one.
    pub fn record_failure(&mut self, attempt: u32)
        requires
            old(self).parse_failures < u32::MAX,
        ensures
            final(self).parse_failures == old(self).parse_failures + 1,
            final(self).max_tokens == (if attempt == 0 {
                2000
            } else {
                old(self).max_tokens
            }),
            final(self).name == old(self).name,
            final(self).host == old(self).host,
            final(self).model == old(self).model,
            final(self).thinking == old(self).thinking,
            final(self).tokens == old(self).tokens,
    {
        self.parse_failures = self.parse_failures + 1;
        if attempt == 0 {
            self.max_tokens = 2000;
        }
    }
}

// ------------------------------------------------------------ reading the answer

/// Scanner state: depth of braces, inside a string, after a backslash.
pub type Scan = (int, bool, bool);

/// The scanner after one more character.
pub open spec fn scan_step(st: Scan, c: char) -> Scan {
    let (depth, in_str, esc) = st;
    if esc {
        (depth, in_str, false)
    } else if c == '\\' && in_str {
        (depth, in_str, true)
    } else if c == '"' {
        (depth, !in_str, esc)
    } else if c == '{' && !in_str {
        (depth + 1, in_str, esc)
    } else if c == '}' && !in_str {
        (depth - 1, in_str, esc)
    } else {
        st
    }
}

/// The scanner after the first `k` characters of `t`.
pub open spec fn scan(t: Seq<char>, k: nat) -> Scan
    decreases k,
{
    if k == 0 {
        (0, false, false)
    } else {
        scan_step(scan(t, (k - 1) as nat), t[k - 1])
    }
}

/// Character `k` of `t` closes the first brace.
pub open spec fn closes_at(t: Seq<char>, k: int) -> bool {
    let st = scan(t, k as nat);
    &&& 0 <= k < t.len()
    &&& !st.2
    &&& t[k] == '}'
    &&& !st.1
    &&& st.0 == 1
}

/// The first balanced JSON object of a text: from its first `{` to the brace
/// that closes it, braces inside strings not counting.
pub open spec fn spec_first_json_object(text: Seq<char>) -> Option<Seq<char>> {
    match spec_find(text, '{') {
        None => None,
        Some(start) => {
            let t = text.subrange(start, text.len() as int);
            if exists|k: int| closes_at(t, k) {
                let k = choose|k: int| closes_at(t, k) && forall|j: int| 0 <= j < k ==> !closes_at(t, j);
                Some(t.subrange(0, k + 1))
            } else {
                None
            }
        },
    }
}

/// The first object of a text closes at the first place that closes its first brace.
proof fn lemma_first_object_at(text: Seq<char>, start: int, k: int)
    requires
        spec_find(text, '{') == Some(start),
        0 <= start <= text.len(),
        closes_at(text.subrange(start, text.len() as int), k),
        forall|j: int| 0 <= j < k ==> !closes_at(text.subrange(start, text.len() as int), j),
    ensures
        spec_first_json_object(text) == Some(text.subrange(start, text.len() as int).subrange(0, k + 1)),
{
    let t = text.subrange(start, text.len() as int);
    let m = choose|m: int| closes_at(t, m) && forall|j: int| 0 <= j < m ==> !closes_at(t, j);
    assert(closes_at(t, k) && forall|j: int| 0 <= j < k ==> !closes_at(t, j));
    if m < k {
    } else if m > k {
        assert(!closes_at(t, k));
    }
}

/// The first balanced JSON object of a text (models wrap their answer in
/// prose and code fences).
#[verifier::rlimit(40)]
pub fn first_json_object(text: &str) -> (r: Option<String>)
    ensures
        match r {
            Some(o) => spec_first_json_object(text@) == Some(o@),
            None => spec_first_json_object(text@) is None,
        },
{
    let cs = chars_of(text);
    let start = match find_char(&cs, '{') {
        Some(s) => s,
        None => return None,
    };
    let ghost t = cs@.subrange(start as int, cs@.len() as int);
    let mut depth: u64 = 0;
    let mut in_str = false;
    let mut esc = false;
    let mut i: usize = start;
    proof {
        assert(cs@[start as int] == '{');
    }
    while i < cs.len()
        invariant
            start <= i <= cs@.len(),
            start < cs@.len(),
            cs@[start as int] == '{',
            t == cs@.subrange(start as int, cs@.len() as int),
            cs@ == text@,
            spec_find(text@, '{') == Some(start as int),
            scan(t, (i - start) as nat) == (depth as int, in_str, esc),
            depth <= i - start,
            i > start ==> depth >= 1,
            i == start ==> depth == 0 && !in_str && !esc,
            forall|j: int| 0 <= j < i - start ==> !closes_at(t, j),
        decreases cs@.len() - i,
    {
        let c = cs[i];
        let ghost k = (i - start) as int;
        assert(t[k] == c);
        if esc {
            esc = false;
        } else if c == '\\' && in_str {
            esc = true;
        } else if c == '"' {
            in_str = !in_str;
        } else if c == '{' && !in_str {
            depth = depth + 1;
        } else if c == '}' && !in_str {
            depth = depth - 1;
            if depth == 0 {
                proof {
                    assert(t =~= text@.subrange(start as int, text@.len() as int));
                    assert(closes_at(t, k));
                    lemma_first_object_at(text@, start as int, k);
                }
                let o = text.substring_char(start, i + 1);
                assert(o@ =~= t.subrange(0, k + 1));
                return Some(String::from_str(o));
            }
        }
        i += 1;
    }
    proof {
        assert forall|k: int| !closes_at(t, k) by {
            if 0 <= k < t.len() {
                assert(k < i - start);
            }
        }
    }
    None
}


// ------------------------------------------------------------ the system prompt

/// The shop line of building type `k`.
pub open spec fn spec_shop_line(k: BuildingType) -> Seq<char> {
    "- "@ + spec_building_name(k) + " : "@ + spec_decimal(spec_cost(k) as nat) + " or, portée² "@ + spec_decimal(
        spec_range_sq(k) as nat,
    ) + ", dégâts "@ + spec_decimal(spec_damage(k) as nat) + (if spec_bonus_vs_armor(k) > 0 {
        " (+"@ + spec_decimal(spec_bonus_vs_armor(k) as nat) + " contre les blindés)"@
    } else {
        Seq::empty()
    }) + (if spec_splash_sq(k) > 0 {
        ", zone"@
    } else {
        Seq::empty()
    }) + (if spec_hits_air(k) {
        ", touche les volants"@
    } else if spec_income(k) > 0 {
        ", ne tire pas, +"@ + spec_decimal(spec_income(k) as nat) + " or/vague"@
    } else {
        ", ne touche pas les volants"@
    })
}

/// The shop lines of the first `n` building types, one per line.
pub open spec fn spec_shop(n: int) -> Seq<char>
    decreases n,
{
    if n <= 0 {
        Seq::empty()
    } else if n == 1 {
        spec_shop_line(spec_building_types()[0])
    } else {
        spec_shop(n - 1) + "\n"@ + spec_shop_line(spec_building_types()[n - 1])
    }
}

/// The rules as the model is told them, derived from the engine's constants.
pub open spec fn spec_system_prompt() -> Seq<char> {
    "Tu joues à un tower defense sur une grille "@ + spec_decimal(BOARD_W as nat) + "x"@ + spec_decimal(BOARD_H as nat) + " (x vers la droite, y vers le bas).\nLes ennemis entrent en `entry` et marchent vers `exit` par le plus court chemin ; tes bâtiments sont des murs : ils allongent ce chemin. Les volants ignorent le labyrinthe et volent en ligne droite. Chaque fuyard coûte des vies ; à 0 vie la partie est finie.\nTon but : survivre au plus grand nombre de vagues.\n\nBâtiments :\n"@ + spec_shop(5) + "\n\nRègles :\n- Bloquer complètement le chemin est interdit (erreur PATH_BLOCKED).\n- Impossible de bâtir sur `entry`, `exit` ou une case occupée.\n- Vendre rembourse 50 %. Un seul déplacement gratuit par round.\n- "@ + spec_decimal(ACTION_LIMIT as nat) + " actions maximum par round, erreurs comprises ; au-delà le round est clôturé d'office.\n- `end_turn` lance la vague : ne le fais que quand tu as fini d'acheter.\n\nRéponds UNIQUEMENT par un objet JSON, sans commentaire, dans l'un de ces formats :\n{\"action\":\"build\",\"building_type\":\"sniper\",\"x\":3,\"y\":5}\n{\"action\":\"sell\",\"building_id\":\"b2\"}\n{\"action\":\"move\",\"building_id\":\"b1\",\"x\":4,\"y\":6}\n{\"action\":\"end_turn\"}"@
}

fn push_shop_line(s: &mut String, k: BuildingType)
    ensures
        final(s)@ == old(s)@ + spec_shop_line(k),
{
    let ghost s0 = s@;
    let st = k.stats();
    s.append("- ");
    s.append(st.name);
    s.append(" : ");
    push_decimal(s, st.cost as u64);
    s.append(" or, portée² ");
    push_decimal(s, st.range_sq as u64);
    s.append(", dégâts ");
    push_decimal(s, st.damage as u64);
    let ghost s1 = s@;
    if st.bonus_vs_armor > 0 {
        s.append(" (+");
        push_decimal(s, st.bonus_vs_armor as u64);
        s.append(" contre les blindés)");
    }
    let ghost s2 = s@;
    if st.splash_sq > 0 {
        s.append(", zone");
    }
    let ghost s3 = s@;
    if st.hits_air {
        s.append(", touche les volants");
    } else if st.income > 0 {
        s.append(", ne tire pas, +");
        push_decimal(s, st.income as u64);
        s.append(" or/vague");
    } else {
        s.append(", ne touche pas les volants");
    }
    proof {
        let bonus = if spec_bonus_vs_armor(k) > 0 {
            " (+"@ + spec_decimal(spec_bonus_vs_armor(k) as nat) + " contre les blindés)"@
        } else {
            Seq::empty()
        };
        let zone = if spec_splash_sq(k) > 0 {
            ", zone"@
        } else {
            Seq::empty()
        };
        assert(s2 =~= s1 + bonus);
        assert(s3 =~= s2 + zone);
        assert(s@ =~= s0 + spec_shop_line(k));
    }
}

/// The system prompt: the rules, derived from the engine's constants so that
/// the prompt cannot disagree with the game.
pub fn system_prompt() -> (p: String)
    ensures
        p@ == spec_system_prompt(),
{
    let mut s = String::new();
    s.append("Tu joues à un tower defense sur une grille ");
    push_decimal(&mut s, BOARD_W as u64);
    s.append("x");
    push_decimal(&mut s, BOARD_H as u64);
    s.append(" (x vers la droite, y vers le bas).\nLes ennemis entrent en `entry` et marchent vers `exit` par le plus court chemin ; tes bâtiments sont des murs : ils allongent ce chemin. Les volants ignorent le labyrinthe et volent en ligne droite. Chaque fuyard coûte des vies ; à 0 vie la partie est finie.\nTon but : survivre au plus grand nombre de vagues.\n\nBâtiments :\n");
    let ghost h = s@;
    let kinds = building_types();
    let mut i: usize = 0;
    while i < kinds.len()
        invariant
            kinds@ == spec_building_types(),
            i <= kinds@.len(),
            s@ == h + spec_shop(i as int),
        decreases kinds@.len() - i,
    {
        if i > 0 {
            s.append("\n");
        }
        push_shop_line(&mut s, kinds[i]);
        proof {
            if i == 0 {
                assert(spec_shop(1) == spec_shop_line(spec_building_types()[0]));
            }
        }
        i += 1;
    }
    s.append("\n\nRègles :\n- Bloquer complètement le chemin est interdit (erreur PATH_BLOCKED).\n- Impossible de bâtir sur `entry`, `exit` ou une case occupée.\n- Vendre rembourse 50 %. Un seul déplacement gratuit par round.\n- ");
    push_decimal(&mut s, ACTION_LIMIT as u64);
    s.append(" actions maximum par round, erreurs comprises ; au-delà le round est clôturé d'office.\n- `end_turn` lance la vague : ne le fais que quand tu as fini d'acheter.\n\nRéponds UNIQUEMENT par un objet JSON, sans commentaire, dans l'un de ces formats :\n{\"action\":\"build\",\"building_type\":\"sniper\",\"x\":3,\"y\":5}\n{\"action\":\"sell\",\"building_id\":\"b2\"}\n{\"action\":\"move\",\"building_id\":\"b1\",\"x\":4,\"y\":6}\n{\"action\":\"end_turn\"}");
    assert(s@ =~= spec_system_prompt());
    s
}

/// The user message: the observation, preceded by the refusal of the
/// previous action when there was one.
pub open spec fn spec_user_message(obs_json: Seq<char>, last: Option<ErrorCode>) -> Seq<char> {
    let body = "État de la partie :\n"@ + obs_json + "\n\nQuelle est ta prochaine action ?"@;
    match last {
        Some(e) => "Ton action précédente a été REFUSÉE : "@ + spec_error_str(e) + " — "@ + spec_error_message(e)
            + "\n\n"@ + body,
        None => body,
    }
}

/// The user message of a turn, around the observation written as JSON.
pub fn user_message(obs_json: &str, last: Option<ErrorCode>) -> (m: String)
    ensures
        m@ == spec_user_message(obs_json@, last),
{
    let mut s = String::new();
    match last {
        Some(e) => {
            s.append("Ton action précédente a été REFUSÉE : ");
            s.append(e.as_str());
            s.append(" — ");
            s.append(e.message());
            s.append("\n\n");
        },
        None => {},
    }
    s.append("État de la partie :\n");
    s.append(obs_json);
    s.append("\n\nQuelle est ta prochaine action ?");
    s
}


} // verus!
