use notation::bar::BarType;
use notation::beamgroup::{beam_levels, keep_within_stem, BeamLevel, BeamingPattern};
use notation::beams::BeamRole;
use notation::chunks::NoteLoc;
use notation::columns::{content_columns, BarColumn};
use notation::complex::{complex_calculate_x_adjustment, ComplexType, ComplexXAdjustment, XShift};
use notation::bar::TiePlacement;
use notation::core_defs::{DirUAD, DirUD, NRectType, TieFromType, TieToType, NV2, NV4};
use notation::marks::complex_tie_marks_of;
use notation::head::{HeadLineTo, HeadLineType, HeadShape};
use notation::part::{Part, PartMusicType, PartType};
use notation::notes_walk::{NotesPairs, NotesPositions};
use notation::note::{ChordColor, ChordFlavour, ChordRoot};
use notation::qcode::QCode;
use notation::utils::chord_guess_width;
use notation::resolve::{resolve_chunk_lines, resolve_chunk_ties};
use notation::voice::{VoiceType, Voices};

fn part_of(code: &str) -> Part {
    let voices = QCode::voices(code).unwrap();
    Part::from_voices(voices).unwrap()
}

fn kinds(part: &Part) -> Vec<(ComplexType, usize)> {
    part.complexes.as_ref().unwrap().iter().map(|c| (c.ctype, c.position)).collect()
}

#[test]
fn runs_end_at_a_bar_pause() {
    let (_, bars) = QCode::bars(" 0 1 2 | bp | 3 4 ").unwrap();
    let chunks = bars.consecutive_note_chunks();
    let loc = |bar: usize, note: usize| NoteLoc { bar, part: 0, voice: 0, note };
    assert_eq!(
        chunks,
        vec![(1, 0, vec![loc(0, 0), loc(0, 1), loc(0, 2)]), (1, 0, vec![loc(2, 0), loc(2, 1)])]
    );
}

#[test]
fn runs_end_at_a_pause() {
    let (_, bars) = QCode::bars(" 0 p 1 | 2 ").unwrap();
    let chunks = bars.consecutive_note_chunks();
    let loc = |bar: usize, note: usize| NoteLoc { bar, part: 0, voice: 0, note };
    assert_eq!(chunks, vec![(1, 0, vec![loc(0, 0)]), (1, 0, vec![loc(0, 2), loc(1, 0)])]);
}

#[test]
fn runs_of_two_voices_are_kept_apart() {
    let (_, bars) = QCode::bars(" 0 % 1 1 ").unwrap();
    let chunks = bars.consecutive_note_chunks();
    let loc = |voice: usize, note: usize| NoteLoc { bar: 0, part: 0, voice, note };
    assert_eq!(chunks, vec![(1, 0, vec![loc(0, 0)]), (1, 1, vec![loc(1, 0), loc(1, 1)])]);
}

#[test]
fn two_voices_starting_together_make_one_complex() {
    let mut part = part_of(" nv4 0 % nv4 1");
    part.create_beamgroups(BeamingPattern::NValues(vec![NV4]));
    part.create_complexes(0);
    let shift = XShift { shape: HeadShape::BlackHead, dots: 0, diagonal: true };
    assert_eq!(kinds(&part), vec![(ComplexType::Two(0, 0, Some(ComplexXAdjustment::LowerRight(shift))), 0)]);
    part.set_complex_durations();
    assert_eq!(part.complexes.as_ref().unwrap()[0].duration, 0);
    part.set_beamgroups_directions(DirUAD::Auto);
    part.calculate_beamgoups_properties();
    part.set_note_directions();
    match &part.ptype {
        PartType::Music(PartMusicType::Voices(Voices::Two(u, l))) => {
            assert_eq!(u.beamgroups.as_ref().unwrap()[0].direction, Some(DirUD::Up));
            assert_eq!(l.beamgroups.as_ref().unwrap()[0].direction, Some(DirUD::Down));
            match (&u.vtype, &l.vtype) {
                (VoiceType::Notes(un), VoiceType::Notes(ln)) => {
                    assert_eq!(un.items[0].direction, Some(DirUD::Up));
                    assert_eq!(ln.items[0].direction, Some(DirUD::Down));
                }
                _ => panic!("two voices of notes expected"),
            }
        }
        _ => panic!("two voices expected"),
    }
}

#[test]
fn part_example() {
    let voices = QCode::voices(" nv4 0 % nv4 1").unwrap();
    let mut part = Part::from_voices(voices).unwrap();
    part.setup_complexes(0).unwrap();
    for complex in part.complexes.as_ref().unwrap() {
        println!("{:?}", complex);
    }
    assert_eq!(part.complexes.as_ref().unwrap().len(), 1);
    match &part.ptype {
        PartType::Music(PartMusicType::Voices(Voices::Two(u, l))) => {
            assert_eq!(u.beamgroups.as_ref().unwrap()[0].direction, Some(DirUD::Up));
            assert_eq!(l.beamgroups.as_ref().unwrap()[0].direction, Some(DirUD::Down));
        }
        _ => panic!("two voices expected"),
    }
}

#[test]
fn setup_of_one_voice_and_of_lyrics() {
    let voices = QCode::voices("nv8 0 1 2 3").unwrap();
    let mut part = Part::from_voices(voices).unwrap();
    part.setup_complexes(5).unwrap();
    let cs = part.complexes.as_ref().unwrap();
    assert_eq!(cs.iter().map(|c| c.id).collect::<Vec<_>>(), vec![5, 6, 7, 8]);
    assert_eq!(cs.iter().map(|c| c.duration).collect::<Vec<_>>(), vec![12, 12, 12, 12]);
    match &part.ptype {
        PartType::Music(PartMusicType::Voices(Voices::One(v))) => {
            let gs = v.beamgroups.as_ref().unwrap();
            assert_eq!(gs.len(), 2);
            assert!(gs.iter().all(|g| g.direction.is_some()));
            match &v.vtype {
                VoiceType::Notes(ns) => assert!(ns.items.iter().all(|n| n.direction.is_some())),
                _ => panic!("notes expected"),
            }
        }
        _ => panic!("one voice expected"),
    }
    let (_, mut lyrics) = QCode::part("lyr lyr:la lyr:li").unwrap();
    lyrics.setup_complexes(0).unwrap();
    assert_eq!(lyrics.complexes.as_ref().unwrap().len(), 2);
    assert_eq!(lyrics.complexes.as_ref().unwrap()[0].duration, 24);
}

#[test]
fn voices_merge_by_position() {
    let mut part = part_of(" nv4 0 0 0 0 % nv2 1");
    part.create_complexes(10);
    assert_eq!(
        kinds(&part),
        vec![
            (ComplexType::Two(0, 0, Some(ComplexXAdjustment::LowerRight(XShift {
                shape: HeadShape::BlackHead,
                dots: 0,
                diagonal: true
            }))), 0),
            (ComplexType::Upper(1, false), 24),
            (ComplexType::Upper(2, true), 48),
            (ComplexType::Upper(3, true), 72),
        ]
    );
    let ids: Vec<usize> = part.complexes.as_ref().unwrap().iter().map(|c| c.id).collect();
    assert_eq!(ids, vec![10, 11, 12, 13]);
    part.set_complex_durations();
    let durations: Vec<usize> = part.complexes.as_ref().unwrap().iter().map(|c| c.duration).collect();
    assert_eq!(durations, vec![24, 24, 24, 24]);
}

#[test]
fn one_voice_makes_single_complexes() {
    let mut part = part_of("nv8 0 1 2");
    part.create_complexes(0);
    assert_eq!(
        kinds(&part),
        vec![(ComplexType::Single(0, false), 0), (ComplexType::Single(1, false), 12), (ComplexType::Single(2, false), 24)]
    );
    part.set_complex_durations();
    let durations: Vec<usize> = part.complexes.as_ref().unwrap().iter().map(|c| c.duration).collect();
    assert_eq!(durations, vec![12, 12, 12]);
}

#[test]
fn notes_beside_a_bar_pause() {
    let mut part = part_of(" bp % 0 1");
    part.create_complexes(0);
    assert_eq!(kinds(&part), vec![(ComplexType::Lower(0, false), 0), (ComplexType::Lower(1, false), 24)]);
    let mut part = part_of(" 0 1 % bp");
    part.create_complexes(0);
    assert_eq!(kinds(&part), vec![(ComplexType::Upper(0, false), 0), (ComplexType::Upper(1, false), 24)]);
}

#[test]
fn overflowing_note_takes_the_forced_direction() {
    let mut part = part_of(" nv4 0 0 % nv4 1");
    part.create_beamgroups(BeamingPattern::NValues(vec![NV4]));
    part.create_complexes(0);
    assert_eq!(kinds(&part)[1], (ComplexType::Upper(1, true), 24));
    part.set_beamgroups_directions(DirUAD::Down);
    match &part.ptype {
        PartType::Music(PartMusicType::Voices(Voices::Two(u, _))) => {
            let gs = u.beamgroups.as_ref().unwrap();
            assert_eq!(gs[0].direction, Some(DirUD::Up));
            assert_eq!(gs[1].direction, Some(DirUD::Down));
        }
        _ => panic!("two voices expected"),
    }
}

#[test]
fn x_adjustments() {
    let notes = QCode::notes("0 -1 nv8 0 nv4 0 2 nv4dot 1").unwrap();
    let n = &notes.items;
    // the lower voice's top head above the upper voice's bottom head
    assert_eq!(
        complex_calculate_x_adjustment(&n[0], &n[1]),
        Some(ComplexXAdjustment::UpperRight(XShift { shape: HeadShape::BlackHead, dots: 0, diagonal: false }))
    );
    // on the same level, lasting differently
    assert_eq!(
        complex_calculate_x_adjustment(&n[0], &n[2]),
        Some(ComplexXAdjustment::UpperRight(XShift { shape: HeadShape::BlackHead, dots: 0, diagonal: false }))
    );
    // on the same level, lasting as long
    assert_eq!(complex_calculate_x_adjustment(&n[0], &n[3]), None);
    // two levels apart
    assert_eq!(complex_calculate_x_adjustment(&n[0], &n[4]), None);
}

#[test]
fn x_adjustment_of_neighbouring_levels_counts_dots() {
    let notes = QCode::notes("nv4dot 0 nv4 1").unwrap();
    assert_eq!(
        complex_calculate_x_adjustment(&notes.items[0], &notes.items[1]),
        Some(ComplexXAdjustment::LowerRight(XShift { shape: HeadShape::BlackHead, dots: 1, diagonal: true }))
    );
}

#[test]
fn columns_of_a_bar() {
    let (_, mut bars) = QCode::bars("nv4 0 0 / nv2 1").unwrap();
    let start = bars.items[0].position;
    match &mut bars.items[0].btype {
        BarType::Standard(parts) => {
            for part in parts.iter_mut() {
                part.create_complexes(0);
            }
            let cols = content_columns(parts, start);
            assert_eq!(
                cols,
                vec![
                    BarColumn { position: start, duration: 24, items: vec![Some(0), Some(0)] },
                    BarColumn { position: start + 24, duration: 24, items: vec![Some(1), None] },
                ]
            );
        }
        _ => panic!("a bar of parts expected"),
    }
    assert_eq!(bars.items[0].complex_count(), 2);
}

#[test]
fn complex_count_of_other_bars_is_zero() {
    let (_, bars) = QCode::bars(" 0 | bl ").unwrap();
    assert_eq!(bars.items[0].complex_count(), 0);
    assert_eq!(bars.items[1].complex_count(), 0);
}

#[test]
fn tie_to_a_note_on_the_level_is_resolved() {
    let notes = QCode::notes("0_ 0").unwrap();
    let mut run = notes.items;
    let (id0, id1) = (run[0].id, run[1].id);
    resolve_chunk_ties(&mut run);
    assert_eq!(run[0].ties[0].ttype, TieFromType::Standard);
    assert_eq!(run[1].ties_to.len(), 1);
    assert_eq!(run[1].ties_to[0].note_id, id1);
    assert_eq!(run[1].ties_to[0].level, 0);
    assert_eq!(run[1].ties_to[0].ttype, TieToType::ResolveTieFrom(id0, 0));
}

#[test]
fn tie_to_a_note_off_the_level_is_unresolved() {
    let mut run = QCode::notes("0_ 1").unwrap().items;
    resolve_chunk_ties(&mut run);
    assert_eq!(run[0].ties[0].ttype, TieFromType::UnresolvedInChunk);
    assert_eq!(run[1].ties_to.len(), 0);
}

#[test]
fn ties_of_the_last_and_of_a_lone_note_are_unresolved() {
    let mut run = QCode::notes("0_ 0_").unwrap().items;
    resolve_chunk_ties(&mut run);
    assert_eq!(run[0].ties[0].ttype, TieFromType::Standard);
    assert_eq!(run[1].ties[0].ttype, TieFromType::UnresolvedInChunk);
    let mut lone = QCode::notes("0_").unwrap().items;
    resolve_chunk_ties(&mut lone);
    assert_eq!(lone[0].ties[0].ttype, TieFromType::UnresolvedInChunk);
}

#[test]
fn last_note_keeps_its_tie_where_the_one_before_has_none() {
    let mut run = QCode::notes("0 0_").unwrap().items;
    resolve_chunk_ties(&mut run);
    assert_eq!(run[1].ties[0].ttype, TieFromType::Standard);
}

#[test]
fn lines_arrive_at_the_next_note() {
    let mut run = QCode::notes("0L 1 2").unwrap().items;
    resolve_chunk_lines(&mut run);
    assert_eq!(run[1].lines_to, vec![HeadLineTo(0, 1, HeadLineType::Line)]);
    assert_eq!(run[2].lines_to, vec![]);
    let mut lone = QCode::notes("0L").unwrap().items;
    resolve_chunk_lines(&mut lone);
    assert_eq!(lone[0].lines_to, vec![]);
}

#[test]
fn beam_levels_follow_the_outer_notes() {
    assert_eq!(beam_levels(DirUD::Up, &vec![(-3, -1)]), (-3, 0));
    assert_eq!(beam_levels(DirUD::Down, &vec![(-3, -1)]), (-1, 0));
    assert_eq!(beam_levels(DirUD::Up, &vec![(0, 0), (2, 2)]), (0, 2));
    assert_eq!(beam_levels(DirUD::Down, &vec![(0, 0), (4, 4)]), (2, 4));
    assert_eq!(beam_levels(DirUD::Up, &vec![(0, 0), (-2, -2), (0, 0)]), (-2, -2));
    assert_eq!(beam_levels(DirUD::Up, &vec![(0, 0), (5, 5), (4, 4)]), (0, 2));
}

#[test]
fn test_notes_constructor() {
    let notes = QCode::notes("nv4 0 nv8 1").unwrap();
    for note in notes.items.iter() {
        println!("- note:{:?}", note);
    }
    println!("notes:{:?}", notes);
    assert_eq!(notes.duration, 36);
}

#[test]
fn notes_positions() {
    let notes = QCode::notes("0 1 2 3").unwrap();
    let mut walk = NotesPositions::new(&notes);
    let mut seen = Vec::new();
    while let Some(n) = walk.next() {
        println!("v:{:?}", n);
        seen.push((n.0, n.1, n.2));
    }
    assert_eq!(seen, vec![(0, 0, 24), (1, 24, 48), (2, 48, 72), (3, 72, 96)]);
}

#[test]
fn notes_pairs() {
    let notes = QCode::notes("0").unwrap();
    let mut pairs = NotesPairs::new(&notes);
    let first = pairs.next();
    println!("n:{:?}", first);
    match first {
        Some((0, Some(_), None)) => {}
        other => panic!("unexpected {:?}", other),
    }
    assert!(pairs.next().is_none());
    let notes = QCode::notes("0 1 2").unwrap();
    let mut pairs = NotesPairs::new(&notes);
    let mut idx = Vec::new();
    while let Some((i, Some(a), Some(b))) = pairs.next() {
        idx.push((i, a.position, b.position));
    }
    assert_eq!(idx, vec![(0, 0, 24), (1, 24, 48)]);
}

#[test]
fn chord_widths() {
    assert_eq!(chord_guess_width(&ChordRoot::NoRoot, &ChordFlavour::Major, &ChordColor::NoColor, &ChordRoot::NoRoot), 0);
    assert_eq!(chord_guess_width(&ChordRoot::CNatural, &ChordFlavour::Major, &ChordColor::NoColor, &ChordRoot::NoRoot), 60);
    assert_eq!(
        chord_guess_width(&ChordRoot::CSharp, &ChordFlavour::Minor, &ChordColor::Seven, &ChordRoot::BFlat),
        60 + 25 + 60 + 30 + 28 + 55 + 30
    );
    assert_eq!(chord_guess_width(&ChordRoot::DNatural, &ChordFlavour::Major, &ChordColor::SusFour, &ChordRoot::ENatural), 70 + 100 + 28 + 50);
}

#[test]
fn tie_marks_of_a_single_note() {
    let mut notes = QCode::notes("0_ 0_,2_ 1").unwrap().items;
    for n in notes.iter_mut() {
        n.direction = Some(DirUD::Up);
    }
    let id0 = notes[0].id;
    let marks = complex_tie_marks_of(&ComplexType::Single(0, false), &notes, &vec![]);
    assert_eq!(
        marks,
        vec![NRectType::TieFrom(id0, 0, TieFromType::Standard, NV4, DirUD::Up, DirUD::Down, TiePlacement::Bottom)]
    );
    let id1 = notes[1].id;
    let marks = complex_tie_marks_of(&ComplexType::Single(1, false), &notes, &vec![]);
    assert_eq!(
        marks,
        vec![
            NRectType::TieFrom(id1, 0, TieFromType::Standard, NV4, DirUD::Up, DirUD::Up, TiePlacement::Top),
            NRectType::TieFrom(id1, 2, TieFromType::Standard, NV4, DirUD::Up, DirUD::Down, TiePlacement::Bottom),
        ]
    );
    let marks = complex_tie_marks_of(&ComplexType::Single(2, false), &notes, &vec![]);
    assert_eq!(marks, vec![]);
}

#[test]
fn tie_marks_of_two_notes() {
    let mut upper = QCode::notes("nv2 0_,1_").unwrap().items;
    let mut lower = QCode::notes("3_").unwrap().items;
    upper[0].direction = Some(DirUD::Up);
    lower[0].direction = Some(DirUD::Down);
    let (u, l) = (upper[0].id, lower[0].id);
    let marks = complex_tie_marks_of(&ComplexType::Two(0, 0, None), &upper, &lower);
    assert_eq!(
        marks,
        vec![
            NRectType::TieFrom(u, 0, TieFromType::Standard, NV2, DirUD::Up, DirUD::Up, TiePlacement::Top),
            NRectType::TieFrom(u, 1, TieFromType::Standard, NV2, DirUD::Up, DirUD::Up, TiePlacement::Top),
            NRectType::TieFrom(l, 3, TieFromType::Standard, NV2, DirUD::Down, DirUD::Down, TiePlacement::Bottom),
        ]
    );
}

#[test]
fn bar_resolve() {
    let bar_data = QCode::bars(" 0 1 2 | bp | 3 4 ").unwrap();
    let (_bartemplate, mut bars) = bar_data;
    bars.resolve_ties();
}

#[test]
fn ties_resolve_across_bars() {
    let (_, mut bars) = QCode::bars(" 0_ | 0 1_ | 2 ").unwrap();
    bars.resolve_ties();
    let note = |bars: &notation::bar::Bars, b: usize, i: usize| match &bars.items[b].btype {
        BarType::Standard(parts) => match &parts[0].ptype {
            PartType::Music(PartMusicType::Voices(Voices::One(v))) => match &v.vtype {
                VoiceType::Notes(ns) => (ns.items[i].id, ns.items[i].ties.clone(), ns.items[i].ties_to.clone()),
                _ => panic!("notes expected"),
            },
            _ => panic!("one voice expected"),
        },
        _ => panic!("a bar of parts expected"),
    };
    let (first, ties, _) = note(&bars, 0, 0);
    assert_eq!(ties[0].ttype, TieFromType::Standard);
    let (second, _, ties_to) = note(&bars, 1, 0);
    assert_eq!(ties_to.len(), 1);
    assert_eq!(ties_to[0].note_id, second);
    assert_eq!(ties_to[0].ttype, TieToType::ResolveTieFrom(first, 0));
    let (_, ties, _) = note(&bars, 1, 1);
    assert_eq!(ties[0].ttype, TieFromType::UnresolvedInChunk);
}

#[test]
fn lines_resolve_across_bars() {
    let (_, mut bars) = QCode::bars(" 0L | 1 ").unwrap();
    bars.resolve_lines();
    match &bars.items[1].btype {
        BarType::Standard(parts) => match &parts[0].ptype {
            PartType::Music(PartMusicType::Voices(Voices::One(v))) => match &v.vtype {
                VoiceType::Notes(ns) => assert_eq!(ns.items[0].lines_to, vec![HeadLineTo(0, 1, HeadLineType::Line)]),
                _ => panic!("notes expected"),
            },
            _ => panic!("one voice expected"),
        },
        _ => panic!("a bar of parts expected"),
    }
}

#[test]
fn ties_and_lines_resolve_together() {
    let (_, mut bars) = QCode::bars(" 0_L 0 ").unwrap();
    bars.resolve_stuff();
    match &bars.items[0].btype {
        BarType::Standard(parts) => match &parts[0].ptype {
            PartType::Music(PartMusicType::Voices(Voices::One(v))) => match &v.vtype {
                VoiceType::Notes(ns) => {
                    assert_eq!(ns.items[1].ties_to.len(), 1);
                    assert_eq!(ns.items[1].lines_to, vec![HeadLineTo(0, 0, HeadLineType::Line)]);
                }
                _ => panic!("notes expected"),
            },
            _ => panic!("one voice expected"),
        },
        _ => panic!("a bar of parts expected"),
    }
}

#[test]
fn beam_roles_follow_the_groups() {
    let mut part = part_of("nv8 0 1 nv4 2 nv8 p 3");
    assert!(part.beam_roles().is_none());
    part.setup_complexes(0).unwrap();
    let roles = part.beam_roles().unwrap();
    assert_eq!(roles.len(), 5);
    let kinds: Vec<&str> = roles
        .iter()
        .map(|(u, _)| match u {
            BeamRole::NoBeam => "none",
            BeamRole::Single(_) => "single",
            BeamRole::Start(_) => "start",
            BeamRole::Middle(_) => "middle",
            BeamRole::End(_, _) => "end",
        })
        .collect();
    assert_eq!(kinds, vec!["start", "end", "single", "none", "single"]);
    assert!(roles.iter().all(|(_, l)| *l == BeamRole::NoBeam));
    match &roles[1].0 {
        BeamRole::End(d, durations) => {
            assert_eq!(durations, &vec![12, 12]);
            assert_eq!(d.note_id, 1);
            assert_eq!(d.note_position, 12);
            assert_eq!(d.duration, 12);
            assert!(d.has_stem);
            assert!(!d.lower_voice);
        }
        _ => panic!("end expected"),
    }
}

#[test]
fn beam_roles_of_two_voices() {
    let mut part = part_of(" nv8 0 0 0 0 % nv4 1 1");
    part.setup_complexes(0).unwrap();
    let roles = part.beam_roles().unwrap();
    assert_eq!(roles.len(), 4);
    match &roles[0] {
        (BeamRole::Start(u), BeamRole::Single(l)) => {
            assert_eq!(u.direction, DirUD::Up);
            assert_eq!(l.direction, DirUD::Down);
            assert!(l.lower_voice);
        }
        _ => panic!("start and single expected"),
    }
    assert!(matches!(roles[1], (BeamRole::End(_, _), BeamRole::NoBeam)));
    assert!(matches!(roles[2], (BeamRole::Start(_), BeamRole::Single(_))));
}

#[test]
fn lines_arrive_at_the_complexes() {
    let (_, mut bars) = QCode::bars(" 0L 1 p ").unwrap();
    bars.resolve_stuff();
    match &mut bars.items[0].btype {
        BarType::Standard(parts) => {
            let part = &mut parts[0];
            assert!(part.arriving_lines().is_none());
            part.create_complexes(0);
            let lines = part.arriving_lines().unwrap();
            assert_eq!(lines, vec![vec![], vec![HeadLineTo(0, 1, HeadLineType::Line)], vec![]]);
        }
        _ => panic!("a bar of parts expected"),
    }
}

#[test]
fn tie_marks_of_a_part() {
    let mut part = part_of("0_ 0 1");
    assert!(part.tie_marks().is_none());
    part.create_complexes(0);
    assert!(part.tie_marks().is_none());
    let mut part = part_of("0_ 0 1");
    part.setup_complexes(0).unwrap();
    let marks = part.tie_marks().unwrap();
    assert_eq!(marks.len(), 3);
    let notes = match &part.ptype {
        PartType::Music(PartMusicType::Voices(Voices::One(v))) => match &v.vtype {
            VoiceType::Notes(ns) => &ns.items,
            _ => panic!("notes expected"),
        },
        _ => panic!("one voice expected"),
    };
    assert_eq!(notes[0].direction, Some(DirUD::Down));
    assert_eq!(
        marks[0],
        vec![NRectType::TieFrom(notes[0].id, 0, TieFromType::Standard, NV4, DirUD::Down, DirUD::Up, TiePlacement::Top)]
    );
    assert_eq!(marks[1], vec![]);
    assert_eq!(marks[2], complex_tie_marks_of(&ComplexType::Single(2, false), notes, &vec![]));
}

#[test]
fn beam_levels_stay_within_a_stem() {
    assert_eq!(keep_within_stem(DirUD::Up, 7), BeamLevel::Level(7));
    assert_eq!(keep_within_stem(DirUD::Up, 8), BeamLevel::StemLength);
    assert_eq!(keep_within_stem(DirUD::Up, -9), BeamLevel::Level(-9));
    assert_eq!(keep_within_stem(DirUD::Down, -7), BeamLevel::Level(-7));
    assert_eq!(keep_within_stem(DirUD::Down, -8), BeamLevel::MinusStemLength);
    assert_eq!(keep_within_stem(DirUD::Down, 9), BeamLevel::Level(9));
    let mut part = part_of("nv8 10 11");
    part.setup_complexes(0).unwrap();
    match &part.ptype {
        PartType::Music(PartMusicType::Voices(Voices::One(v))) => {
            let g = &v.beamgroups.as_ref().unwrap()[0];
            assert_eq!(g.direction, Some(DirUD::Up));
            assert_eq!(g.start_level, BeamLevel::StemLength);
            assert_eq!(g.end_level, BeamLevel::StemLength);
        }
        _ => panic!("one voice expected"),
    }
    match &part.beam_roles().unwrap()[0].0 {
        BeamRole::Start(d) => assert_eq!(d.tip_level, BeamLevel::StemLength),
        _ => panic!("start expected"),
    }
}

#[test]
fn a_part_can_be_set_up_again() {
    let mut part = part_of("nv8 0 1 2 3");
    part.setup_complexes(0).unwrap();
    part.setup_complexes(10).unwrap();
    let cs = part.complexes.as_ref().unwrap();
    assert_eq!(cs.iter().map(|c| c.id).collect::<Vec<_>>(), vec![10, 11, 12, 13]);
    match &part.ptype {
        PartType::Music(PartMusicType::Voices(Voices::One(v))) => assert_eq!(v.beamgroups.as_ref().unwrap().len(), 2),
        _ => panic!("one voice expected"),
    }
}
