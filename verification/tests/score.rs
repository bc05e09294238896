use notation::bar::{Bar, BarType, BarlineType, Bars, NonContentType};
use notation::columns::BarColumn;
use notation::core_defs::Clef;
use notation::error::NotationError;
use notation::matrix::{ColumnItem, MatrixColumn};
use notation::part::{BarTemplate, PartMusicType, PartTemplate, PartType};
use notation::qcode::QCode;
use notation::voice::{VoiceType, Voices};

fn ids_of(bar: &Bar) -> Vec<Vec<usize>> {
    let mut out = vec![];
    if let BarType::Standard(parts) = &bar.btype {
        for part in parts {
            if let PartType::Music(PartMusicType::Voices(vs)) = &part.ptype {
                let voices = match vs {
                    Voices::One(v) => vec![v],
                    Voices::Two(a, b) => vec![a, b],
                };
                for v in voices {
                    if let VoiceType::Notes(ns) = &v.vtype {
                        out.push(ns.items.iter().map(|n| n.id).collect());
                    }
                }
            }
        }
    }
    out
}

#[test]
fn notes_are_numbered_across_the_score() {
    let (_, bars) = QCode::bars(" 0 1 / 6 | 2 % 3 4 / 5 ").unwrap();
    assert_eq!(ids_of(&bars.items[0]), vec![vec![0, 1], vec![2]]);
    assert_eq!(ids_of(&bars.items[1]), vec![vec![3], vec![4, 5], vec![6]]);
}

#[test]
fn matrix_needs_a_layout() {
    let (_, bars) = QCode::bars(" 0 ").unwrap();
    match bars.matrix_columns(None) {
        Err(NotationError::Generic(m)) => assert_eq!(m, "Bartemplate is missing!"),
        _ => panic!("error expected"),
    }
}

#[test]
fn matrix_columns_of_attribute_and_content_bars() {
    let (t, mut bars) = QCode::bars("clef G | 0 ").unwrap();
    if let BarType::Standard(parts) = &mut bars.items[1].btype {
        parts[0].setup_complexes(0).unwrap();
    }
    let cols = bars.matrix_columns(Some(t)).unwrap();
    assert_eq!(cols.len(), 2);
    assert_eq!(cols[0], vec![MatrixColumn::Other(0, vec![Some(ColumnItem::Clef(Some(Clef::G)))])]);
    assert_eq!(
        cols[1],
        vec![MatrixColumn::Content(BarColumn { position: 0, duration: 24, items: vec![Some(0)] })]
    );
}

#[test]
fn a_barline_stands_in_music_rows_only() {
    let bars = Bars::new(vec![Bar::new(BarType::NonContent(NonContentType::Barline(BarlineType::Single)))]);
    let cols = bars.matrix_columns(Some(BarTemplate(vec![PartTemplate::Music, PartTemplate::Nonmusic]))).unwrap();
    assert_eq!(cols, vec![vec![MatrixColumn::Other(0, vec![Some(ColumnItem::Barline(BarlineType::Single)), None])]]);
    let bars = Bars::new(vec![Bar::new(BarType::NonContent(NonContentType::VerticalLine))]);
    let cols = bars.matrix_columns(Some(BarTemplate(vec![PartTemplate::Music, PartTemplate::Nonmusic]))).unwrap();
    assert_eq!(
        cols,
        vec![vec![MatrixColumn::Other(
            0,
            vec![Some(ColumnItem::VerticalLine(PartTemplate::Music)), Some(ColumnItem::VerticalLine(PartTemplate::Nonmusic))]
        )]]
    );
}
