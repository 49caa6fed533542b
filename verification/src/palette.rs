use vstd::prelude::*;

verus! {

/// The colours of the fire from cold to hot, as red, green and blue.
pub open spec fn fire_palette_spec() -> Seq<(u8, u8, u8)> {
    seq![
        (0x00u8, 0x00u8, 0x00u8),
        (0x31u8, 0x1Eu8, 0x10u8),
        (0x57u8, 0x33u8, 0x18u8),
        (0x76u8, 0x41u8, 0x1Eu8),
        (0xD1u8, 0x4Bu8, 0x02u8),
        (0xDEu8, 0x9Au8, 0x1Au8),
        (0xFFu8, 0x9Cu8, 0x17u8),
        (0xFEu8, 0xB4u8, 0x17u8),
        (0xFFu8, 0xCFu8, 0x19u8),
        (0xFEu8, 0xEDu8, 0x18u8),
        (0xFAu8, 0xFFu8, 0x4Au8),
    ]
}

/// The palette of the fire: black for heat 0, then deepening reds, oranges
/// and yellows up to a pale yellow for heat 10.
pub fn fire_palette() -> (p: Vec<(u8, u8, u8)>)
    ensures
        p@ == fire_palette_spec(),
{
    let p: Vec<(u8, u8, u8)> = vec![
        (0x00, 0x00, 0x00),
        (0x31, 0x1E, 0x10),
        (0x57, 0x33, 0x18),
        (0x76, 0x41, 0x1E),
        (0xD1, 0x4B, 0x02),
        (0xDE, 0x9A, 0x1A),
        (0xFF, 0x9C, 0x17),
        (0xFE, 0xB4, 0x17),
        (0xFF, 0xCF, 0x19),
        (0xFE, 0xED, 0x18),
        (0xFA, 0xFF, 0x4A),
    ];
    assert(p@ =~= fire_palette_spec());
    p
}

/// How bright a colour is: the sum of its channels.
pub open spec fn light(c: (u8, u8, u8)) -> int {
    c.0 + c.1 + c.2
}

/// The palette runs from cold to hot: it has 11 colours, heat 0 is black,
/// each hotter heat is strictly brighter than every colder one, and its
/// green channel never falls, so the colours move from red towards yellow.
pub proof fn lemma_palette_ramp()
    ensures
        fire_palette_spec().len() == 11,
        fire_palette_spec()[0] == (0u8, 0u8, 0u8),
        forall|i: int, j: int|
            0 <= i < j < 11 ==> light(#[trigger] fire_palette_spec()[i]) < light(
                #[trigger] fire_palette_spec()[j],
            ),
        forall|i: int, j: int|
            0 <= i <= j < 11 ==> (#[trigger] fire_palette_spec()[i]).1 <= (
            #[trigger] fire_palette_spec()[j]).1,
{
    let p = fire_palette_spec();
    assert(light(p[0]) == 0 && light(p[1]) == 95 && light(p[2]) == 162 && light(p[3]) == 213);
    assert(light(p[4]) == 286 && light(p[5]) == 402 && light(p[6]) == 434 && light(p[7]) == 457);
    assert(light(p[8]) == 487 && light(p[9]) == 515 && light(p[10]) == 579);
}

/// The palette's colours, heat by heat, as red, green and blue.
pub proof fn lemma_palette_colors()
    ensures
        fire_palette_spec()[0] == (0x00u8, 0x00u8, 0x00u8),
        fire_palette_spec()[1] == (0x31u8, 0x1Eu8, 0x10u8),
        fire_palette_spec()[2] == (0x57u8, 0x33u8, 0x18u8),
        fire_palette_spec()[3] == (0x76u8, 0x41u8, 0x1Eu8),
        fire_palette_spec()[4] == (0xD1u8, 0x4Bu8, 0x02u8),
        fire_palette_spec()[5] == (0xDEu8, 0x9Au8, 0x1Au8),
        fire_palette_spec()[6] == (0xFFu8, 0x9Cu8, 0x17u8),
        fire_palette_spec()[7] == (0xFEu8, 0xB4u8, 0x17u8),
        fire_palette_spec()[8] == (0xFFu8, 0xCFu8, 0x19u8),
        fire_palette_spec()[9] == (0xFEu8, 0xEDu8, 0x18u8),
        fire_palette_spec()[10] == (0xFAu8, 0xFFu8, 0x4Au8),
{
}

} // verus!
