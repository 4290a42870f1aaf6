use state_preimages::commands::{generate_cmd, verify_cmd, Action, Order, OrderArgs};

const PLAIN: OrderArgs = OrderArgs { plain: true, eip7748: false };
const HASHED: OrderArgs = OrderArgs { plain: false, eip7748: true };
const BOTH: OrderArgs = OrderArgs { plain: true, eip7748: true };
const NONE: OrderArgs = OrderArgs { plain: false, eip7748: false };

#[test]
fn generating_in_plain_order_takes_one_stage() {
    let steps = vec![
        Action::Announce("[1/1] Generating preimage file..."),
        Action::Generate { order: Order::Plain, hashed_progress: false },
    ];
    assert_eq!(generate_cmd(PLAIN), Ok(steps.clone()));
    assert_eq!(generate_cmd(BOTH), Ok(steps));
}

#[test]
fn generating_in_hashed_order_takes_two_stages() {
    assert_eq!(
        generate_cmd(HASHED),
        Ok(vec![
            Action::Announce("[1/2] Ordering account addresses by hash..."),
            Action::OrderByHash,
            Action::Announce("[2/2] Generating preimage file..."),
            Action::Generate { order: Order::Eip7748, hashed_progress: true },
        ])
    );
}

#[test]
fn verifying_in_plain_order_takes_two_stages() {
    let steps = vec![
        Action::Announce("[1/2] Verifying provided preimage file..."),
        Action::Verify { order: Order::Plain, hashed_progress: false },
        Action::Announce("[2/2] The preimage file is valid!"),
    ];
    assert_eq!(verify_cmd(PLAIN), Ok(steps.clone()));
    assert_eq!(verify_cmd(BOTH), Ok(steps));
}

#[test]
fn verifying_in_hashed_order_takes_three_stages() {
    assert_eq!(
        verify_cmd(HASHED),
        Ok(vec![
            Action::Announce("[1/3] Ordering account addresses by hash..."),
            Action::OrderByHash,
            Action::Announce("[2/3] Verifying provided preimage file..."),
            Action::Verify { order: Order::Eip7748, hashed_progress: true },
            Action::Announce("[3/3] The preimage file is valid!"),
        ])
    );
}

#[test]
fn without_an_order_there_is_nothing_to_do() {
    assert_eq!(generate_cmd(NONE), Err("No ordering specified"));
    assert_eq!(verify_cmd(NONE), Err("No ordering specified"));
}
