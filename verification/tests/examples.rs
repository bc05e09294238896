use std::rc::Rc;

use notation::beamgroup::{get_beamgroups, BeamingPattern};
use notation::core_defs::{durations_to_beamtypes, Clef, NV1, NV16, NV16DOT, NV2, NV4, NV8, NV8DOT};
use notation::experiment::{VItem, VItems, ValueSumIterator};
use notation::head::Head;
use notation::heads::Heads;
use notation::pair_iterator::PairIterator;
use notation::playback::{setup_level_to_note_maps, Key};
use notation::qcode::QCode;
use notation::some_cloneables::SomeCloneablePairs;
use notation::voice::{Voice, VoiceType};

#[test]
fn playback_example() {
    setup_level_to_note_maps(&Clef::F, &Key::Flats(2, Clef::F));
}

#[test]
fn durations() {
    let durations = vec![NV16DOT, NV8];
    let beamtype = durations_to_beamtypes(&durations);
    println!("{:?}", beamtype);
}

#[test]
fn tests() {
    let v_items = &VItems::new(vec![VItem { value: 111 }, VItem { value: 222 }]);
    for borrowed_v_item in v_items.iter() {
        println!("v_item:{:?}", borrowed_v_item);
    }
}

#[test]
fn experiment_example() {
    let items = &vec![&VItem { value: 111 }, &VItem { value: 222 }];
    let mut custom_iterator = ValueSumIterator { items, count: 0, pos: 0 };
    while let Some(borrowed_v_item) = custom_iterator.next() {
        println!("v_item:{:?}", borrowed_v_item);
    }
}

#[test]
fn heads_1() {
    let head1 = Head::from_level(-2);
    let heads = Heads::new(vec![Head::from_level(1), head1]);
    for head in heads.iter() {
        println!("Heads: -- head:{:?}", head);
    }
    println!("heads.items[0];:{:?}", &heads);
}

#[test]
fn test() {
    let v = vec![24, 24];
    match v.as_slice() {
        [1, 2] => println!("1,2"),
        [1, 2, 3] => println!("1,2,3"),
        [NV4, NV4] => println!("NV4,NV4"),
        _ => println!("not ok"),
    }
}

#[derive(Debug)]
pub struct TestItem {
    val: usize,
}

#[test]
fn test3() {
    let vec = vec![&TestItem { val: 111 }, &TestItem { val: 222 }];
    let mut test = PairIterator::new(&vec);
    while let Some(item) = test.next() {
        println!("- item:{:?}", item);
    }
    println!("test:{:?}", vec);
}

#[derive(Debug)]
pub struct Test {
    val: usize,
}

#[test]
fn some_cloneables_example5() {
    let items: SomeCloneablePairs<Rc<Test>> = SomeCloneablePairs {
        items: vec![
            None,
            Some(Rc::new(Test { val: 11 })),
            None,
            None,
            Some(Rc::new(Test { val: 44 })),
            None,
            None,
            None,
            Some(Rc::new(Test { val: 88 })),
            None,
        ],
    };
    let mut refs = items.iter();
    while let Some(t) = refs.next() {
        println!("{:?}", t);
    }
    let mut owned = items.into_iter();
    while let Some(t) = owned.next() {
        println!("{:?}", t);
    }
}

#[test]
fn voices() {}

#[test]
fn beamgroup_example() {
    let notes = QCode::notes("nv4 0 1 2").unwrap();
    let groups = get_beamgroups(&notes, &BeamingPattern::NoBeams).unwrap();
    let mut iter = groups.iter();
    assert_eq!(iter.next().unwrap().notes.len(), 1);
    assert_eq!(iter.next().unwrap().notes.len(), 1);
    assert_eq!(iter.next().unwrap().notes.len(), 1);

    let mut iter = groups.iter();
    assert_eq!(iter.next().unwrap().duration, NV4);
    assert_eq!(iter.next().unwrap().duration, NV4);
    assert_eq!(iter.next().unwrap().duration, NV4);
}

#[test]
fn example2() {
    let notes = QCode::notes("nv8 0 1 2 nv16 0 0 0 nv8 1 nv16 0").unwrap();
    let groups = get_beamgroups(&notes, &BeamingPattern::NValues(vec![NV4])).unwrap();
    let mut iter = groups.iter();
    assert_eq!(iter.next().unwrap().notes.len(), 2);
    assert_eq!(iter.next().unwrap().notes.len(), 3);
    assert_eq!(iter.next().unwrap().notes.len(), 3);

    let mut iter = groups.iter();
    assert_eq!(iter.next().unwrap().duration, NV4);
    assert_eq!(iter.next().unwrap().duration, NV4);
    assert_eq!(iter.next().unwrap().duration, NV4);
}

#[test]
fn example3() {
    let notes = QCode::notes("nv8dot 0 nv8 p nv16 0 0 0 0").unwrap();
    let groups = get_beamgroups(&notes, &BeamingPattern::NValues(vec![NV4])).unwrap();
    let mut iter = groups.iter();
    assert_eq!(iter.next().unwrap().notes.len(), 1);
    assert_eq!(iter.next().unwrap().notes.len(), 1);
    assert_eq!(iter.next().unwrap().notes.len(), 3);
    assert_eq!(iter.next().unwrap().notes.len(), 1);

    let mut iter = groups.iter();
    assert_eq!(iter.next().unwrap().duration, NV8DOT);
    assert_eq!(iter.next().unwrap().duration, NV8);
    assert_eq!(iter.next().unwrap().duration, NV8DOT);
    assert_eq!(iter.next().unwrap().duration, NV16);
}

#[test]
fn example4() {
    let notes = QCode::notes("nv8 p 0").unwrap();
    let groups = get_beamgroups(&notes, &BeamingPattern::NValues(vec![NV4])).unwrap();
    let mut iter = groups.iter();
    assert_eq!(iter.next().unwrap().notes.len(), 1);
    assert_eq!(iter.next().unwrap().notes.len(), 1);
}

#[test]
fn beamgroup_example5() {
    let notes = QCode::notes("nv1 0 nv2 0 nv4 0 nv8 0 0 nv16 0 0 0 0").unwrap();
    let groups = get_beamgroups(&notes, &BeamingPattern::NValues(vec![NV4])).unwrap();
    let mut iter = groups.iter();
    assert_eq!(iter.next().unwrap().duration, NV1);
    assert_eq!(iter.next().unwrap().duration, NV2);
    assert_eq!(iter.next().unwrap().duration, NV4);
    assert_eq!(iter.next().unwrap().duration, NV4);
    assert_eq!(iter.next().unwrap().duration, NV4);
}

#[test]
fn head_example() {
    let _notes = QCode::notes("nv4 #0,b1 0_,2n_ bb1 ##1 n2 b1").unwrap();
}

#[test]
fn levels_accidentals() {
    let notes = QCode::notes("#1,2,bb3").unwrap();
    let note = &notes.items[0];
    let la = note.levels_accidentals();
    println!("{:?}", &la);
}

#[test]
fn note_example() {
    let _notes = QCode::notes("nv8 0 1 2 nv16 3 2 0 1 0 1 nv8dot 2 3").unwrap();
}

#[test]
fn qcode_test_notes() {
    let notes = QCode::notes("0 1,2 nv2 -4 p ").unwrap();
    println!("notes:{:?}", notes);
}

#[test]
fn qcode_test_voice() {
    let voice = QCode::voice("bp x nv2 y nv8 z").unwrap();
    println!("voice:{:?}", voice);
}

#[test]
fn test_lyric() {
    let notes = QCode::notes("$lyr:Hej ").unwrap();
    println!("{:?}", notes);
}

#[test]
fn quick_test_notes() {
    let notes = QCode::notes("0 1,2 nv2 -4 p ").unwrap();
    println!("notes:{:?}", notes);
    for note in notes.items.iter() {
        println!("- note:{:?}", note.duration);
    }
}

#[test]
fn test_accidentals() {
    let notes = QCode::notes("1 b2 #-3 n4").unwrap();
    for note in notes.items.iter() {
        println!("- note:{:?}", note);
    }
}

#[test]
fn quick_test_voice() {
    let voice = QCode::voice("bp x nv2 y nv8 z").unwrap();
    println!("voice:{:?}", voice);
}

#[test]
fn voice_example() {
    let notes = QCode::notes("nv8 0 1 2 nv16 3 2 0 1 0 1 nv8dot 2 3").unwrap();
    let _voice = Voice::new(VoiceType::Notes(notes));
}

#[test]
fn voice2() {
    let voice = Voice::new(VoiceType::Barpause(Some(NV1)));
    println!("voice:{:?}", voice);
}

#[test]
fn voice3() {
    let mut voice = QCode::voice("nv8 0 0 0").unwrap();
    voice.create_beamgroups(&BeamingPattern::NValues(vec![NV4]));
}
