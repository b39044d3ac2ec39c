//! Damage rule and seeded wave generation.
use vstd::prelude::*;
use crate::types::{BuildingType, EnemyKind, spec_damage, spec_bonus_vs_armor, spec_plating};
use crate::rng::{Rng, seeded_state, xorshift_step, xorshift_output};

verus! {

/// Enemy counts of a wave, indexed by enemy kind (infantry, armor, flyer).
pub type Composition = [u32; 3];

/// Damage of one hit of a `kind` turret on a `target`: specialists pierce
/// armor; anyone else loses the plating, but never drops below 1.
pub open spec fn spec_effective_damage(kind: BuildingType, target: EnemyKind) -> u32 {
    if target == EnemyKind::Armor {
        if spec_bonus_vs_armor(kind) > 0 {
            (spec_damage(kind) + spec_bonus_vs_armor(kind)) as u32
        } else if spec_damage(kind) > spec_plating(target) + 1 {
            (spec_damage(kind) - spec_plating(target)) as u32
        } else {
            1
        }
    } else {
        spec_damage(kind)
    }
}

/// Damage of one hit; the single rule shared by the simulation and the agents.
pub fn effective_damage(kind: BuildingType, target: EnemyKind) -> (d: u32)
    ensures
        d == spec_effective_damage(kind, target),
{
    let st = kind.stats();
    if target == EnemyKind::Armor {
        if st.bonus_vs_armor > 0 {
            return st.damage + st.bonus_vs_armor;
        }
        let left = st.damage.saturating_sub(target.plating());
        return if left > 1 {
            left
        } else {
            1
        };
    }
    st.damage
}

/// The seed of the generator that draws wave `wave` of a game seeded `seed`.
pub open spec fn wave_seed(seed: u64, wave: u32) -> u64 {
    (((seed as int * 0x9E37_79B9int) % 0x1_0000_0000_0000_0000int + wave as int)
        % 0x1_0000_0000_0000_0000int) as u64
}

/// The random extra infantry of a wave.
pub open spec fn infantry_draw(seed: u64, wave: u32) -> u64 {
    xorshift_output(xorshift_step(seeded_state(wave_seed(seed, wave)))) % (wave as u64 / 2 + 2) as u64
}

/// The generator state after the infantry draw.
pub open spec fn state_after_infantry(seed: u64, wave: u32) -> u64 {
    xorshift_step(seeded_state(wave_seed(seed, wave)))
}

/// The generator state after the armor draw (if any).
pub open spec fn state_after_armor(seed: u64, wave: u32) -> u64 {
    if wave >= 5 {
        xorshift_step(state_after_infantry(seed, wave))
    } else {
        state_after_infantry(seed, wave)
    }
}

/// Enemy counts of wave `wave` for seed `seed`: infantry grows with the
/// wave, armor appears from wave 5, flyers from wave 8, each with a seeded
/// random extra.
pub open spec fn spec_wave_composition(seed: u64, wave: u32) -> Seq<u32> {
    let w = wave as int;
    let infantry = 3 + w + infantry_draw(seed, wave);
    let armor = if wave >= 5 {
        (w - 3) / 2 + xorshift_output(state_after_armor(seed, wave)) % 2
    } else {
        0
    };
    let flyer = if wave >= 8 {
        (w - 6) / 3 + xorshift_output(xorshift_step(state_after_armor(seed, wave))) % 2
    } else {
        0
    };
    seq![infantry as u32, armor as u32, flyer as u32]
}

/// Seeded wave composition: derived from the seed and the wave number only.
pub fn wave_composition(seed: u64, wave: u32) -> (c: Composition)
    ensures
        c@ == spec_wave_composition(seed, wave),
{
    let mut rng = Rng::new(seed.wrapping_mul(0x9E37_79B9).wrapping_add(wave as u64));
    let w = wave as u64;
    let infantry = 3 + w + rng.below(w / 2 + 2);
    let armor = if wave >= 5 {
        (w - 3) / 2 + rng.below(2)
    } else {
        0
    };
    let flyer = if wave >= 8 {
        (w - 6) / 3 + rng.below(2)
    } else {
        0
    };
    let c = [infantry as u32, armor as u32, flyer as u32];
    assert(c@ =~= spec_wave_composition(seed, wave));
    c
}

/// The wave announcement (the `minimal` observation mode).
pub open spec fn spec_incoming_intel(seed: u64, wave: u32) -> Seq<char> {
    let c = spec_wave_composition(seed, wave);
    let body = if c[1] > 0 && c[2] > 0 {
        "des moteurs lourds grondent au loin"@ + ", "@ + "le ciel bourdonne"@
    } else if c[1] > 0 {
        "des moteurs lourds grondent au loin"@
    } else if c[2] > 0 {
        "le ciel bourdonne"@
    } else {
        "des colonnes d'infanterie se rassemblent"@
    };
    "N+2 : "@ + body + "."@
}

/// Textual announcement of wave `wave`: heavy engines for armor, a buzzing
/// sky for flyers, infantry columns otherwise.
pub fn incoming_intel(seed: u64, wave: u32) -> (s: String)
    ensures
        s@ == spec_incoming_intel(seed, wave),
{
    let c = wave_composition(seed, wave);
    let mut s = String::from_str("N+2 : ");
    if c[1] > 0 {
        s.append("des moteurs lourds grondent au loin");
        if c[2] > 0 {
            s.append(", ");
            s.append("le ciel bourdonne");
        }
    } else if c[2] > 0 {
        s.append("le ciel bourdonne");
    } else {
        s.append("des colonnes d'infanterie se rassemblent");
    }
    s.append(".");
    proof {
        let cs = spec_wave_composition(seed, wave);
        if cs[1] > 0 && cs[2] > 0 {
            assert(s@ =~= "N+2 : "@ + ("des moteurs lourds grondent au loin"@ + ", "@ + "le ciel bourdonne"@) + "."@);
        }
    }
    s
}


/// Waves grow with their number and introduce the enemy kinds one at a
/// time: infantry only at first, armor from wave 5, flyers from wave 8.
pub proof fn lemma_wave_growth(seed: u64, wave: u32)
    requires
        wave < 0x8000_0000,
    ensures
        ({
            let c = spec_wave_composition(seed, wave);
            let w = wave as int;
            &&& 3 + w <= c[0] <= 3 + w + w / 2 + 1
            &&& wave < 5 ==> c[1] == 0
            &&& wave >= 5 ==> (w - 3) / 2 <= c[1] <= (w - 3) / 2 + 1
            &&& wave < 8 ==> c[2] == 0
            &&& wave >= 8 ==> (w - 6) / 3 <= c[2] <= (w - 6) / 3 + 1
        }),
{
}

// ------------------------------------------------------------ the detailed intel

/// Sentences of battalion life that fill the detailed report: true, and
/// tactically empty.
pub const FILLERS: u64 = 12;

/// How many filler sentences a detailed report holds.
pub const FILLERS_PER_REPORT: u64 = 7;

/// Filler sentence `i` (modulo their number).
#[verifier::opaque]
pub open spec fn spec_filler(i: int) -> Seq<char> {
    let j = i % (FILLERS as int);
    if j == 0 {
        "La pluie n'a pas cessé depuis l'aube sur les tranchées du secteur."@
    } else if j == 1 {
        "Le courrier de l'arrière est arrivé avec deux jours de retard."@
    } else if j == 2 {
        "Les groupes électrogènes du poste de commandement tournent de nouveau."@
    } else if j == 3 {
        "La cantine a servi une soupe aux choux, comme la veille."@
    } else if j == 4 {
        "Un sergent signale une fuite dans le toit de l'abri numéro trois."@
    } else if j == 5 {
        "Les sentinelles ont été relevées à l'heure prévue."@
    } else if j == 6 {
        "Le vaguemestre réclame des sacs postaux supplémentaires."@
    } else if j == 7 {
        "Les chevaux du train des équipages ont été ferrés à neuf."@
    } else if j == 8 {
        "Le brouillard s'est levé vers midi sur la vallée."@
    } else if j == 9 {
        "L'aumônier a célébré un office bref près du dépôt de munitions."@
    } else if j == 10 {
        "Les cuisiniers ont reçu une livraison de pommes de terre."@
    } else {
        "Le télégraphe de campagne fonctionne sans interruption."@
    }
}

fn filler(i: u64) -> (s: &'static str)
    ensures
        s@ == spec_filler(i as int),
{
    reveal(spec_filler);
    match i % FILLERS {
        0 => "La pluie n'a pas cessé depuis l'aube sur les tranchées du secteur.",
        1 => "Le courrier de l'arrière est arrivé avec deux jours de retard.",
        2 => "Les groupes électrogènes du poste de commandement tournent de nouveau.",
        3 => "La cantine a servi une soupe aux choux, comme la veille.",
        4 => "Un sergent signale une fuite dans le toit de l'abri numéro trois.",
        5 => "Les sentinelles ont été relevées à l'heure prévue.",
        6 => "Le vaguemestre réclame des sacs postaux supplémentaires.",
        7 => "Les chevaux du train des équipages ont été ferrés à neuf.",
        8 => "Le brouillard s'est levé vers midi sur la vallée.",
        9 => "L'aumônier a célébré un office bref près du dépôt de munitions.",
        10 => "Les cuisiniers ont reçu une livraison de pommes de terre.",
        _ => "Le télégraphe de campagne fonctionne sans interruption.",
    }
}

/// The `n` filler sentences from `k` on, each followed by a space.
pub open spec fn fillers_before(k: int, n: nat) -> Seq<char>
    decreases n,
{
    if n == 0 {
        Seq::empty()
    } else {
        fillers_before(k, (n - 1) as nat) + spec_filler(k + n - 1) + " "@
    }
}

/// The `n` filler sentences from `k` on, each preceded by a space.
pub open spec fn fillers_after(k: int, n: nat) -> Seq<char>
    decreases n,
{
    if n == 0 {
        Seq::empty()
    } else {
        fillers_after(k, (n - 1) as nat) + " "@ + spec_filler(k + n - 1)
    }
}

/// The seed of the generator that lays out the detailed report of a wave.
pub open spec fn report_seed(seed: u64, wave: u32) -> u64 {
    seed ^ (0xD1B5_4A32_D192_ED03u64 ^ wave as u64)
}

/// The first filler sentence of the report, drawn from the generator.
#[verifier::opaque]
pub open spec fn report_first(seed: u64, wave: u32) -> int {
    (xorshift_output(xorshift_step(seeded_state(report_seed(seed, wave)))) % FILLERS) as int
}

/// How many filler sentences come before the announcement.
#[verifier::opaque]
pub open spec fn report_cut(seed: u64, wave: u32) -> int {
    (xorshift_output(xorshift_step(xorshift_step(seeded_state(report_seed(seed, wave)))))
        % ((FILLERS_PER_REPORT + 1) as u64)) as int
}

/// The announcement of wave `wave` in the `detailed` mode: seven sentences
/// of battalion life, with the announcement of the `minimal` mode buried
/// among them at a place drawn from the seed and the wave.
pub open spec fn spec_detailed_intel(seed: u64, wave: u32) -> Seq<char> {
    let k = report_first(seed, wave);
    let cut = report_cut(seed, wave);
    fillers_before(k, cut as nat) + spec_incoming_intel(seed, wave) + fillers_after(
        k + cut,
        (FILLERS_PER_REPORT - cut) as nat,
    )
}

/// Where the detailed report of a wave starts in the fillers, and where the
/// announcement goes.
fn report_layout(seed: u64, wave: u32) -> (r: (u64, u64))
    ensures
        r.0 == report_first(seed, wave),
        r.1 == report_cut(seed, wave),
        r.0 < FILLERS,
        r.1 <= FILLERS_PER_REPORT,
{
    reveal(report_first);
    reveal(report_cut);
    let mut rng = Rng::new(seed ^ (0xD1B5_4A32_D192_ED03u64 ^ wave as u64));
    let k = rng.below(FILLERS);
    let cut = rng.below(FILLERS_PER_REPORT + 1);
    (k, cut)
}

/// The detailed announcement of wave `wave`: a function of the seed and the
/// wave only, like the minimal one it buries.
pub fn detailed_intel(seed: u64, wave: u32) -> (s: String)
    ensures
        s@ == spec_detailed_intel(seed, wave),
{
    let (k, cut) = report_layout(seed, wave);
    let mut s = String::new();
    push_fillers_before(&mut s, k, cut);
    let minimal = incoming_intel(seed, wave);
    s.append(minimal.as_str());
    push_fillers_after(&mut s, k + cut, FILLERS_PER_REPORT - cut);
    s
}

/// Appends the `n` fillers from `k` on, each followed by a space.
fn push_fillers_before(s: &mut String, k: u64, n: u64)
    requires
        k < FILLERS,
        n <= FILLERS_PER_REPORT,
    ensures
        final(s)@ == old(s)@ + fillers_before(k as int, n as nat),
{
    let ghost start = s@;
    let mut i: u64 = 0;
    while i < n
        invariant
            i <= n <= FILLERS_PER_REPORT,
            k < FILLERS,
            s@ == start + fillers_before(k as int, i as nat),
        decreases n - i,
    {
        let f = filler(k + i);
        s.append(f);
        s.append(" ");
        proof {
            assert(s@ =~= start + fillers_before(k as int, (i + 1) as nat));
        }
        i += 1;
    }
}

/// Appends the `n` fillers from `k` on, each preceded by a space.
fn push_fillers_after(s: &mut String, k: u64, n: u64)
    requires
        k < FILLERS + FILLERS_PER_REPORT,
        n <= FILLERS_PER_REPORT,
    ensures
        final(s)@ == old(s)@ + fillers_after(k as int, n as nat),
{
    let ghost start = s@;
    let mut i: u64 = 0;
    while i < n
        invariant
            i <= n <= FILLERS_PER_REPORT,
            k < FILLERS + FILLERS_PER_REPORT,
            s@ == start + fillers_after(k as int, i as nat),
        decreases n - i,
    {
        let f = filler(k + i);
        s.append(" ");
        s.append(f);
        proof {
            assert(s@ =~= start + fillers_after(k as int, (i + 1) as nat));
        }
        i += 1;
    }
}

proof fn lemma_fillers_not_empty(i: int)
    ensures
        spec_filler(i).len() > 0,
{
    reveal(spec_filler);
    reveal_strlit("La pluie n'a pas cessé depuis l'aube sur les tranchées du secteur.");
    reveal_strlit("Le courrier de l'arrière est arrivé avec deux jours de retard.");
    reveal_strlit("Les groupes électrogènes du poste de commandement tournent de nouveau.");
    reveal_strlit("La cantine a servi une soupe aux choux, comme la veille.");
    reveal_strlit("Un sergent signale une fuite dans le toit de l'abri numéro trois.");
    reveal_strlit("Les sentinelles ont été relevées à l'heure prévue.");
    reveal_strlit("Le vaguemestre réclame des sacs postaux supplémentaires.");
    reveal_strlit("Les chevaux du train des équipages ont été ferrés à neuf.");
    reveal_strlit("Le brouillard s'est levé vers midi sur la vallée.");
    reveal_strlit("L'aumônier a célébré un office bref près du dépôt de munitions.");
    reveal_strlit("Les cuisiniers ont reçu une livraison de pommes de terre.");
    reveal_strlit("Le télégraphe de campagne fonctionne sans interruption.");
}

proof fn lemma_fillers_after_len(k: int, n: nat)
    ensures
        fillers_after(k, n).len() >= n,
    decreases n,
{
    reveal_strlit(" ");
    if n > 0 {
        lemma_fillers_after_len(k, (n - 1) as nat);
        lemma_fillers_not_empty(k + n - 1);
    }
}

proof fn lemma_fillers_before_len(k: int, n: nat)
    ensures
        fillers_before(k, n).len() >= n,
    decreases n,
{
    reveal_strlit(" ");
    if n > 0 {
        lemma_fillers_before_len(k, (n - 1) as nat);
    }
}

/// The detailed report buries the minimal announcement among filler
/// sentences: it holds it whole, at the place where the fillers before it
/// end, and it is a longer text.
pub proof fn lemma_detailed_buries_the_announcement(seed: u64, wave: u32)
    ensures
        ({
            let d = spec_detailed_intel(seed, wave);
            let m = spec_incoming_intel(seed, wave);
            let at = fillers_before(report_first(seed, wave), report_cut(seed, wave) as nat).len();
            &&& d.subrange(at as int, (at + m.len()) as int) == m
            &&& d.len() >= m.len() + FILLERS_PER_REPORT
            &&& d != m
        }),
{
    let k = report_first(seed, wave);
    let cut = report_cut(seed, wave);
    let b = fillers_before(k, cut as nat);
    let m = spec_incoming_intel(seed, wave);
    let a = fillers_after(k + cut, (FILLERS_PER_REPORT - cut) as nat);
    lemma_fillers_before_len(k, cut as nat);
    lemma_fillers_after_len(k + cut, (FILLERS_PER_REPORT - cut) as nat);
    assert((b + m + a).subrange(b.len() as int, (b.len() + m.len()) as int) =~= m);
}

} // verus!
