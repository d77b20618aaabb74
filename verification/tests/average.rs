use mahjong_dp::average::{average_of_all, average_of_best, Term};

#[test]
fn average_of_best_takes_the_terms_of_the_best_rank() {
    let terms = vec![
        Term { rank: 3, weight: 1, values: [10, 100] },
        Term { rank: 5, weight: 2, values: [40, 0] },
        Term { rank: 5, weight: 1, values: [7, 9] },
        Term { rank: 4, weight: 9, values: [900, 900] },
    ];
    assert_eq!(average_of_best(&terms), [15, 3]);
}

#[test]
fn average_of_best_with_all_ranks_zero_takes_every_term() {
    let terms = vec![
        Term { rank: 0, weight: 1, values: [10] },
        Term { rank: 0, weight: 3, values: [31] },
    ];
    assert_eq!(average_of_best(&terms), [10]);
}

#[test]
fn average_of_best_forgets_what_came_before_a_better_rank() {
    let terms = vec![
        Term { rank: 1, weight: 4, values: [400] },
        Term { rank: 2, weight: 1, values: [3] },
    ];
    assert_eq!(average_of_best(&terms), [3]);
}

#[test]
fn average_of_all_divides_by_the_given_weight() {
    let terms = vec![
        Term { rank: 0, weight: 100, values: [1230, 5] },
        Term { rank: 0, weight: 23, values: [1230, 117] },
    ];
    assert_eq!(average_of_all(&terms, 123), [20, 0]);
    let none: Vec<Term<2>> = vec![];
    assert_eq!(average_of_all(&none, 123), [0, 0]);
}
