# gng_minting

A verified model of the GNG minting contract: users stake Gnogen NFTs, the
staked NFTs clash two by two in daily (or weekly) battles, and the winners and
the users who run the battle transactions earn GNG.

The library under `src/` is written in Verus. Every public function states in
its `ensures` what it returns and how it changes the contract, over the
mathematical model `GngView` (`src/gng.rs`) and `ConfigView`
(`src/config.rs`); every call keeps the contract's invariant (`wf`).

- `amount.rs`: GNG amounts of any size, with verified addition,
  subtraction, comparison and rounded-down shares.
- `model.rs`: the values the contract stores (tokens, attributes, statistics,
  pending rewards, payments). Accounts and collections are numbers given by the
  host; `0` is the empty identifier.
- `store.rs`: the storage collections, an ordered set with swap-removal and a
  map, with their views.
- `config.rs`: owner, admins, battle collections, attributes, reward pool.
- `schedule.rs`: battle times, Sundays and special weeks.
- `clash.rs`: who wins a clash, with the tiebreak rules.
- `rewards.rs`: the rounded-down shares of a reward pool.
- `operations.rs`: the status of an operation that runs while the gas lasts.
- `gng.rs`: the contract's endpoints and views.
- `laws.rs`: properties that span calls, proved over the model.

The host (`app/lib.rs`) reads the clock, the gas and the randomness of the
chain, runs a battle transaction step by step, and lists the transfers to make.

## What the model leaves out

- Battle rewards are not halved. Each battle sets aside the stakers' amount
  and the operators' amount as configured (`set_daily_reward_amount`,
  `set_base_battle_reward_amount`). No halving schedule and no endpoints for
  extra battle collections are modelled.

GNG amounts are `Amount` values (`amount.rs`): numbers of any size, held as
64-bit limbs, whose view is a `nat`; sums and shares never overflow.
