use notation::bar::{BarAttributeType, BarType, Bars, BarlineType, NonContentType, Time};
use notation::beamgroup::{get_beamgroups, BeamingPattern};
use notation::calc::note_get_heads_placements;
use notation::core_defs::{Accidental, Clef, DirUD, NV4, NV8};
use notation::error::NotationError;
use notation::head::HeadPlacement;
use notation::note::{ChordRoot, NoteType, Notes};
use notation::utils::parse_chord_root;
use notation::part::{BarTemplate, PartTemplate};
use notation::playback::{setup_level_to_note_maps, Key, PlayNote, PlayNotesData};
use notation::qcode::QCode;
use notation::voice::{VoiceType, Voices};

#[test]
fn beam_groups_split_at_quarters() {
    let notes = QCode::notes("nv8 0 0 0 0").unwrap();
    let groups = get_beamgroups(&notes, &BeamingPattern::NValues(vec![NV4])).unwrap();
    assert_eq!(groups.len(), 2);
    assert_eq!(groups[0].notes, vec![0, 1]);
    assert_eq!(groups[1].notes, vec![2, 3]);
    assert_eq!(groups[0].id, 0);
    assert_eq!(groups[1].id, 1);
}

#[test]
fn beam_groups_of_no_notes_fail() {
    let notes = Notes::new(vec![]);
    let r = get_beamgroups(&notes, &BeamingPattern::NoBeams);
    assert_eq!(r, Err(NotationError::Generic("notes is empty".to_string())));
}

#[test]
fn beam_group_top_and_bottom() {
    let notes = QCode::notes("nv8 -2 3,5").unwrap();
    let groups = get_beamgroups(&notes, &BeamingPattern::NValues(vec![NV4])).unwrap();
    assert_eq!(groups.len(), 1);
    assert_eq!(groups[0].top, -2);
    assert_eq!(groups[0].bottom, 5);
    assert_eq!(groups[0].calc_direction(), DirUD::Up);
    assert!(!groups[0].is_single_note());
}

#[test]
fn voice_marks_its_notes_with_groups() {
    let mut voice = QCode::voice("nv8 0 0 0").unwrap();
    voice.create_beamgroups(&BeamingPattern::NValues(vec![NV4]));
    let groups = voice.beamgroups.as_ref().unwrap();
    assert_eq!(groups.len(), 2);
    match &voice.vtype {
        VoiceType::Notes(notes) => {
            assert_eq!(notes.items[0].beamgroup, Some(0));
            assert_eq!(notes.items[1].beamgroup, Some(0));
            assert_eq!(notes.items[2].beamgroup, Some(1));
        }
        _ => panic!("notes expected"),
    }
}

#[test]
fn chord_heads_alternate_beside_the_stem() {
    let mut notes = QCode::notes("0,1,2").unwrap();
    notes.items[0].direction = Some(DirUD::Up);
    let placements = note_get_heads_placements(&notes.items[0]).unwrap();
    let places: Vec<(i8, HeadPlacement)> = placements.iter().map(|p| (p.0, p.1)).collect();
    assert_eq!(
        places,
        vec![(2, HeadPlacement::Center), (1, HeadPlacement::Right), (0, HeadPlacement::Center)]
    );
    notes.items[0].direction = Some(DirUD::Down);
    let placements = note_get_heads_placements(&notes.items[0]).unwrap();
    let places: Vec<(i8, HeadPlacement)> = placements.iter().map(|p| (p.0, p.1)).collect();
    assert_eq!(
        places,
        vec![(0, HeadPlacement::Center), (1, HeadPlacement::Left), (2, HeadPlacement::Center)]
    );
}

#[test]
fn distant_heads_stay_centered() {
    let mut notes = QCode::notes("0,3").unwrap();
    notes.items[0].direction = Some(DirUD::Down);
    let placements = note_get_heads_placements(&notes.items[0]).unwrap();
    assert_eq!(placements[0].1, HeadPlacement::Center);
    assert_eq!(placements[1].1, HeadPlacement::Center);
}

#[test]
fn chord_without_direction_fails() {
    let notes = QCode::notes("0,1").unwrap();
    match note_get_heads_placements(&notes.items[0]) {
        Err(NotationError::Generic(m)) => {
            assert!(m.starts_with("Note Note id:"));
            assert!(m.contains(" pos:0 end:24 dur:24 heads:"));
            assert!(m.ends_with(" has no direction"));
        }
        other => panic!("unexpected {:?}", other),
    }
}

#[test]
fn pause_has_no_placements() {
    let notes = QCode::notes("p").unwrap();
    assert!(matches!(notes.items[0].ntype, NoteType::Pause));
    assert_eq!(note_get_heads_placements(&notes.items[0]).unwrap().len(), 0);
}

#[test]
fn level_maps_under_clefs() {
    let (notes, signs) = setup_level_to_note_maps(&Clef::G, &Key::Open);
    assert_eq!(notes.len(), 21);
    assert_eq!(notes[&0], 71);
    assert_eq!(notes[&6], 60);
    assert_eq!(signs[&0], Accidental::Natural);
    let (notes, signs) = setup_level_to_note_maps(&Clef::F, &Key::Flats(2, Clef::F));
    assert_eq!(notes[&0], 50);
    assert_eq!(signs[&0], Accidental::Natural);
    assert_eq!(signs[&2], Accidental::Flat);
    let (_, signs) = setup_level_to_note_maps(&Clef::G, &Key::Sharps(1, Clef::G));
    assert_eq!(signs[&(-4)], Accidental::Sharp);
    assert_eq!(signs[&0], Accidental::Natural);
}

#[test]
fn play_notes_json() {
    let p = PlayNote { note: 60, volocity: 100, duration: NV4, time: 0, partidx: 0, voiceidx: 0, noteidx: 0 };
    let q = PlayNote { note: 62, volocity: 100, duration: NV8, time: NV4, partidx: 0, voiceidx: 0, noteidx: 1 };
    let data = PlayNotesData { notes: vec![p, q], duration: 36 };
    let expected = "{\n\"duration\": 36,\n\"positions\": [\n\t{\"time\": 0,\"note\": 60,\"duration\": 24,\"volocity\": 100,\"partidx\": 0,\"voiceidx\": 0,\"noteidx\": 0},\n\t{\"time\": 24,\"note\": 62,\"duration\": 12,\"volocity\": 100,\"partidx\": 0,\"voiceidx\": 0,\"noteidx\": 1}\n]}\n";
    assert_eq!(data.to_json(), expected);
    let empty = PlayNotesData { notes: vec![], duration: 0 };
    assert_eq!(empty.to_json(), "{\n\"duration\": 0,\n\"positions\": [\n]}\n");
}

#[test]
fn playback_of_bars() {
    let (_, bars) = QCode::bars("0 #0 0 | 0").unwrap();
    let data = bars.calc_playback();
    let pitches: Vec<u8> = data.notes.iter().map(|n| n.note).collect();
    assert_eq!(pitches, vec![73, 72, 72, 73]);
    let times: Vec<usize> = data.notes.iter().map(|n| n.time).collect();
    assert_eq!(times, vec![0, 24, 48, 72]);
    assert_eq!(data.duration, 96);
}

#[test]
fn bars_are_placed_in_sequence() {
    let (template, bars) = QCode::bars("nv4 0 0 | nv8 1 1 1").unwrap();
    assert_eq!(template, BarTemplate(vec![PartTemplate::Music]));
    let positions: Vec<usize> = bars.items.iter().map(|b| b.position).collect();
    assert_eq!(positions, vec![0, 48]);
    assert_eq!(bars.items[1].duration, 36);
    assert_eq!(bars.parts_count(), Some(2));
    assert_eq!(bars.count_music_parts_voices(), vec![1]);
}

#[test]
fn bar_codes_of_attributes() {
    let (t, bar) = QCode::bar("cle G f - x").unwrap();
    assert_eq!(t, BarTemplate(vec![PartTemplate::Music, PartTemplate::Music, PartTemplate::Nonmusic]));
    assert_eq!(
        bar.btype,
        BarType::BarAttribute(BarAttributeType::Clefs(vec![Some(Some(Clef::G)), Some(Some(Clef::F)), None]))
    );
    let (t, bar) = QCode::bar("key ## fb -").unwrap();
    assert_eq!(t, BarTemplate(vec![PartTemplate::Music, PartTemplate::Music, PartTemplate::Nonmusic]));
    assert_eq!(
        bar.btype,
        BarType::BarAttribute(BarAttributeType::Keys(vec![Some(Some(Key::Sharps(2, Clef::G))), Some(Some(Key::Flats(1, Clef::F))), None]))
    );
    let (t, bar) = QCode::bar("key C# Fn fcbb").unwrap();
    assert_eq!(t, BarTemplate(vec![PartTemplate::Music, PartTemplate::Music, PartTemplate::Music]));
    assert_eq!(
        bar.btype,
        BarType::BarAttribute(BarAttributeType::Keys(vec![Some(Some(Key::Sharps(1, Clef::C))), Some(Some(Key::Open)), Some(Some(Key::Flats(2, Clef::C)))]))
    );
    let (t, bar) = QCode::bar("tim 3:4 c").unwrap();
    assert_eq!(t, BarTemplate(vec![PartTemplate::Music, PartTemplate::Music]));
    match bar.btype {
        BarType::BarAttribute(BarAttributeType::Times(times)) => {
            assert_eq!(times.len(), 2);
            match &times[0] {
                Some(Some(Time::Standard(n, d))) => {
                    assert_eq!(n.0, "3");
                    assert_eq!(d.0, "4");
                }
                other => panic!("unexpected {:?}", other),
            }
            assert_eq!(times[1], Some(Some(Time::Cut)));
        }
        other => panic!("unexpected {:?}", other),
    }
}

#[test]
fn bar_codes_without_music() {
    let (t, bar) = QCode::bar(" bld ").unwrap();
    assert_eq!(t.0.len(), 0);
    assert_eq!(bar.btype, BarType::NonContent(NonContentType::Barline(BarlineType::Double)));
    let (_, bar) = QCode::bar("sp 12").unwrap();
    assert_eq!(bar.btype, BarType::NonContent(NonContentType::Spacer(Some("12".to_string()), None)));
    let (_, bar) = QCode::bar("sp2").unwrap();
    assert_eq!(
        bar.btype,
        BarType::NonContent(NonContentType::Spacer(Some("10".to_string()), Some("150".to_string())))
    );
    let (_, bar) = QCode::bar("ci 0 0").unwrap();
    assert_eq!(bar.duration, 48);
}

#[test]
fn bars_with_mismatched_layouts_fail() {
    let r = QCode::bars("0 | lyr 0");
    match r {
        Err(NotationError::Generic(m)) => assert!(m.starts_with("bar template mismatch: ")),
        other => panic!("unexpected {:?}", other),
    }
    let r = QCode::bars(" bl | vl ");
    assert_eq!(r, Err(NotationError::Generic("no bars in code: bl | vl".to_string())));
}

#[test]
fn other_parts_are_not_read() {
    let r = QCode::part("oth 0");
    assert_eq!(r, Err(NotationError::Generic("other part not implemented".to_string())));
}

#[test]
fn lyrics_part() {
    let (t, part) = QCode::part("lyr lyr:la lyr:li").unwrap();
    assert_eq!(t, PartTemplate::Nonmusic);
    assert_eq!(part.duration, 48);
}

#[test]
fn voices_codes() {
    let v = QCode::voices(" 0 % nv1 1").unwrap();
    match v {
        Voices::Two(a, b) => {
            assert_eq!(a.duration, NV4);
            assert_eq!(b.duration, 96);
        }
        other => panic!("unexpected {:?}", other),
    }
    let r = QCode::voices("0 % 1 % 2 % 3");
    assert_eq!(r, Err(NotationError::Generic("too many voices in code: 4".to_string())));
}

#[test]
fn bar_pause_length() {
    let v = QCode::voice("bp nv2 nv4 x").unwrap();
    assert_eq!(v.duration, 72);
    assert_eq!(v.vtype, VoiceType::Barpause(Some(72)));
    let v = QCode::voice("bp").unwrap();
    assert_eq!(v.vtype, VoiceType::Barpause(None));
}

#[test]
fn bars_new_places_bars() {
    let (_, a) = QCode::bar("nv2 0").unwrap();
    let (_, b) = QCode::bar("0").unwrap();
    let bars = Bars::new(vec![a, b]);
    assert_eq!(bars.items[0].position, 0);
    assert_eq!(bars.items[1].position, 48);
}

#[test]
fn pitches_fall_by_level_and_repeat_by_octave() {
    for clef in [Clef::G, Clef::F, Clef::C] {
        let (n, _) = setup_level_to_note_maps(&clef, &Key::Open);
        for l in -10i8..10 {
            assert!(n[&l] > n[&(l + 1)]);
        }
        for l in -10i8..=3 {
            assert_eq!(n[&l] - n[&(l + 7)], 12);
        }
    }
    let (g, _) = setup_level_to_note_maps(&Clef::G, &Key::Open);
    let (f, _) = setup_level_to_note_maps(&Clef::F, &Key::Sharps(2, Clef::F));
    for l in -10i8..=-2 {
        assert_eq!(f[&l], g[&(l + 12)]);
    }
}

#[test]
fn chord_root_letters_read_back() {
    for c in ['C', 'D', 'E', 'F', 'G', 'A', 'B'] {
        assert_eq!(parse_chord_root(&[c]).get_char(), c);
    }
    assert_eq!(ChordRoot::NoRoot.get_char(), ' ');
    assert_eq!(parse_chord_root(&['H']), ChordRoot::NoRoot);
}
