use secret_jesus_solver::{JesusFinder, Prodigy};

fn candidates(f: &JesusFinder) -> Vec<Vec<bool>> {
    match f.find_jesus() {
        Ok(ps) => ps,
        Err(_) => panic!("the solver failed"),
    }
}

fn holders(ps: &[Vec<bool>]) -> Vec<usize> {
    let mut out: Vec<usize> = ps
        .iter()
        .map(|p| {
            assert_eq!(p.iter().filter(|&&b| b).count(), 1);
            p.iter().position(|&b| b).unwrap()
        })
        .collect();
    out.sort();
    out
}

#[test]
fn every_player_is_a_candidate_without_evidence() {
    for n in 4..=10 {
        let f = JesusFinder::new(n);
        let ps = candidates(&f);
        assert_eq!(ps.len(), n);
        for p in &ps {
            assert_eq!(p.len(), n);
        }
        assert_eq!(holders(&ps), (0..n).collect::<Vec<_>>());
    }
}

#[test]
fn each_projection_names_one_player() {
    let f = JesusFinder::new(7);
    let ps = candidates(&f);
    for p in &ps {
        assert_eq!(p.iter().filter(|&&b| b).count(), 1);
    }
}

#[test]
fn asking_twice_gives_the_same_set() {
    let mut f = JesusFinder::new(6);
    f.process_event(0, &[0, 1, 2], &[Prodigy::Null, Prodigy::Bane, Prodigy::Boon]);
    let first = holders(&candidates(&f));
    let second = holders(&candidates(&f));
    assert_eq!(first, second);
}

#[test]
fn evidence_only_narrows() {
    let mut f = JesusFinder::new(5);
    let before = holders(&candidates(&f));
    f.process_event(0, &[0, 1], &[Prodigy::Bane, Prodigy::Null]);
    let after = holders(&candidates(&f));
    assert!(after.iter().all(|i| before.contains(i)));
    assert_eq!(after, vec![2, 3, 4]);
}

#[test]
fn impossible_evidence_leaves_no_candidate() {
    // Only Judas and Peter hold banes, so at most two of four players can
    // reveal one at the same slot.
    let mut f = JesusFinder::new(4);
    f.process_event(0, &[0, 1, 2, 3], &[Prodigy::Bane, Prodigy::Bane, Prodigy::Bane, Prodigy::Null]);
    assert_eq!(candidates(&f).len(), 0);
}

#[test]
fn four_players_one_candidate_ruled_out() {
    let mut f = JesusFinder::new(4);
    assert_eq!(holders(&candidates(&f)), vec![0, 1, 2, 3]);
    // Balanced evidence from everyone says nothing about who is Jesus.
    f.process_event(0, &[0, 1, 2, 3], &[Prodigy::Bane, Prodigy::Null, Prodigy::Null, Prodigy::Boon]);
    assert_eq!(holders(&candidates(&f)), vec![0, 1, 2, 3]);
    // Jesus holds only boons, so a player who reveals a null is not Jesus.
    f.process_event(1, &[2], &[Prodigy::Null]);
    assert_eq!(holders(&candidates(&f)), vec![0, 1, 3]);
}

#[test]
fn a_boon_at_every_slot_singles_out_jesus() {
    let mut f = JesusFinder::new(4);
    for slot in 0..4 {
        f.process_event(slot, &[1], &[Prodigy::Boon]);
    }
    // Only Jesus holds four boons.
    assert_eq!(holders(&candidates(&f)), vec![1]);
}

#[test]
fn blocking_enumerates_each_candidate_once() {
    let mut f = JesusFinder::new(8);
    f.process_event(0, &[0, 1, 2, 3], &[Prodigy::Null, Prodigy::Null, Prodigy::Null, Prodigy::Null]);
    let ps = candidates(&f);
    let hs = holders(&ps);
    let mut dedup = hs.clone();
    dedup.dedup();
    assert_eq!(hs, dedup);
    assert_eq!(hs, vec![4, 5, 6, 7]);
}

#[test]
fn no_boon_from_everyone_leaves_no_candidate() {
    // Jesus holds a boon at every slot, so some participant must reveal one.
    let mut f = JesusFinder::new(4);
    f.process_event(0, &[0, 1, 2, 3], &[Prodigy::Bane, Prodigy::Null, Prodigy::Null, Prodigy::Null]);
    assert_eq!(candidates(&f), Vec::<Vec<bool>>::new());
}

#[test]
fn a_bane_rules_out_its_holder() {
    let mut f = JesusFinder::new(4);
    let before = candidates(&f);
    f.process_event(0, &[0], &[Prodigy::Bane]);
    let after = candidates(&f);
    assert_eq!(after.len(), before.len() - 1);
    let mut sorted = after.clone();
    sorted.sort();
    assert_eq!(
        sorted,
        vec![
            vec![false, false, false, true],
            vec![false, false, true, false],
            vec![false, true, false, false],
        ]
    );
}

#[test]
fn projection_reads_the_target_role_column() {
    let mut m = vec![false; 80];
    m[5] = true;
    m[6] = true;
    assert_eq!(secret_jesus_solver::projection_of(&m, 4), vec![false, true, false, false]);
    // Variables beyond the model read as false.
    assert_eq!(secret_jesus_solver::projection_of(&vec![true; 3], 4), vec![true, false, false, false]);
}
