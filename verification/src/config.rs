use vstd::prelude::*;

use crate::amount::Amount;
use crate::clash::TiebreakCollections;
use crate::error::{Error, transition};
use crate::model::{Address, Attributes, Nonce, Payment, Token, TokenId};
use crate::store::{Store, UnorderedSet, seq_swap_remove};

verus! {

/// Whether the user-level endpoints are open.
#[derive(Clone, Copy, Debug, PartialEq, Eq, Structural)]
pub enum State {
    Inactive,
    Active,
}

/// The set after `x` is added where it is absent.
pub open spec fn set_insert<T>(s: Seq<T>, x: T) -> Seq<T> {
    if s.contains(x) {
        s
    } else {
        s.push(x)
    }
}

/// The set after `x` is removed where it is present.
pub open spec fn set_remove<T>(s: Seq<T>, x: T) -> Seq<T> {
    if s.contains(x) {
        seq_swap_remove(s, s.index_of(x))
    } else {
        s
    }
}

/// One entry of `set_attributes`: collection, nonce, power, heart, ram.
pub type AttributesArg = (TokenId, Nonce, u16, u16, u16);

pub open spec fn arg_token(arg: AttributesArg) -> Token {
    Token { token_id: arg.0, nonce: arg.1 }
}

pub open spec fn arg_attributes(arg: AttributesArg) -> Attributes {
    Attributes { power: arg.2, heart: arg.3, ram: arg.4 }
}

/// The attributes after the entries of `args` are written in order.
pub open spec fn attributes_after(m: Map<Token, Attributes>, args: Seq<AttributesArg>) -> Map<Token, Attributes>
    decreases args.len(),
{
    if args.len() == 0 {
        m
    } else {
        attributes_after(m, args.drop_last()).insert(arg_token(args.last()), arg_attributes(args.last()))
    }
}

/// What the configuration holds.
pub struct ConfigView {
    pub owner: Address,
    pub admin: Seq<Address>,
    pub battle_tokens: Seq<TokenId>,
    pub state: State,
    pub token_attributes: Map<Token, Attributes>,
    pub gng_token_id: TokenId,
    pub emidas_token_id: TokenId,
    pub supreme_token_id: TokenId,
    pub gnogon_token_id: TokenId,
    pub validator_v2_token_id: TokenId,
    pub doga_token_id: TokenId,
    pub reward_capacity: nat,
    pub daily_reward_amount: nat,
    pub base_battle_reward_amount: nat,
}

/// The configuration of the contract: its owner and admins, the
/// collections that may battle and their attributes, and the reward pool.
#[derive(Clone)]
pub struct ConfigModule {
    owner: Address,
    admin: UnorderedSet<Address>,
    battle_tokens: UnorderedSet<TokenId>,
    state: State,
    token_attributes: Store<Token, Attributes>,
    gng_token_id: TokenId,
    emidas_token_id: TokenId,
    supreme_token_id: TokenId,
    gnogon_token_id: TokenId,
    validator_v2_token_id: TokenId,
    doga_token_id: TokenId,
    reward_capacity: Amount,
    daily_reward_amount: Amount,
    base_battle_reward_amount: Amount,
}

impl View for ConfigModule {
    type V = ConfigView;

    closed spec fn view(&self) -> ConfigView {
        ConfigView {
            owner: self.owner,
            admin: self.admin@,
            battle_tokens: self.battle_tokens@,
            state: self.state,
            token_attributes: self.token_attributes@,
            gng_token_id: self.gng_token_id,
            emidas_token_id: self.emidas_token_id,
            supreme_token_id: self.supreme_token_id,
            gnogon_token_id: self.gnogon_token_id,
            validator_v2_token_id: self.validator_v2_token_id,
            doga_token_id: self.doga_token_id,
            reward_capacity: self.reward_capacity@,
            daily_reward_amount: self.daily_reward_amount@,
            base_battle_reward_amount: self.base_battle_reward_amount@,
        }
    }
}

impl ConfigView {
    /// The configuration of a contract that `owner` has just deployed.
    pub open spec fn initial(owner: Address) -> ConfigView {
        ConfigView {
            owner,
            admin: Seq::empty(),
            battle_tokens: Seq::empty(),
            state: State::Inactive,
            token_attributes: Map::empty(),
            gng_token_id: 0,
            emidas_token_id: 0,
            supreme_token_id: 0,
            gnogon_token_id: 0,
            validator_v2_token_id: 0,
            doga_token_id: 0,
            reward_capacity: 0,
            daily_reward_amount: 0,
            base_battle_reward_amount: 0,
        }
    }

    /// `next` where the owner calls, the refusal of any other caller.
    pub open spec fn only_owner(self, caller: Address, next: ConfigView) -> Result<ConfigView, Error> {
        if caller != self.owner {
            Err(Error::OnlyOwner)
        } else {
            Ok(next)
        }
    }

    pub open spec fn after_set_battle_token(
        self,
        caller: Address,
        emidas: TokenId,
        supreme: TokenId,
        gnogon: TokenId,
        validator: TokenId,
        doga: TokenId,
    ) -> Result<ConfigView, Error> {
        self.only_owner(caller, ConfigView {
            emidas_token_id: emidas,
            supreme_token_id: supreme,
            gnogon_token_id: gnogon,
            validator_v2_token_id: validator,
            doga_token_id: doga,
            battle_tokens: set_insert(
                set_insert(
                    set_insert(set_insert(set_insert(self.battle_tokens, emidas), supreme), gnogon),
                    validator,
                ),
                doga,
            ),
            ..self
        })
    }

    pub open spec fn after_set_attributes(self, caller: Address, args: Seq<AttributesArg>) -> Result<ConfigView, Error> {
        self.only_owner(caller, ConfigView {
            token_attributes: attributes_after(self.token_attributes, args),
            ..self
        })
    }

    pub open spec fn after_pause(self, caller: Address) -> Result<ConfigView, Error> {
        self.only_owner(caller, ConfigView { state: State::Inactive, ..self })
    }

    pub open spec fn after_resume(self, caller: Address) -> Result<ConfigView, Error> {
        self.only_owner(caller, ConfigView { state: State::Active, ..self })
    }

    pub open spec fn after_deposit_gng(self, caller: Address, payments: Seq<Payment>) -> Result<ConfigView, Error> {
        if !self.admin.contains(caller) {
            Err(Error::OnlyAdmin)
        } else if payments.len() != 1 {
            Err(Error::IncorrectNumberOfTransfers)
        } else if payments[0].nonce != 0 {
            Err(Error::FungibleTokenExpected)
        } else if payments[0].token_id != self.gng_token_id {
            Err(Error::InvalidTokenSent)
        } else {
            Ok(ConfigView { reward_capacity: self.reward_capacity + payments[0].amount@, ..self })
        }
    }

    pub open spec fn after_add_admin(self, caller: Address, admin: Address) -> Result<ConfigView, Error> {
        if caller != self.owner {
            Err(Error::OnlyOwner)
        } else if self.admin.contains(admin) {
            Err(Error::AlreadyAdmin)
        } else {
            Ok(ConfigView { admin: self.admin.push(admin), ..self })
        }
    }

    pub open spec fn after_remove_admin(self, caller: Address, admin: Address) -> Result<ConfigView, Error> {
        if caller != self.owner {
            Err(Error::OnlyOwner)
        } else if !self.admin.contains(admin) {
            Err(Error::NotAdmin)
        } else {
            Ok(ConfigView { admin: set_remove(self.admin, admin), ..self })
        }
    }

    pub open spec fn after_set_daily_reward_amount(self, caller: Address, amount: nat) -> Result<ConfigView, Error> {
        self.only_owner(caller, ConfigView { daily_reward_amount: amount, ..self })
    }

    pub open spec fn after_set_base_battle_reward_amount(self, caller: Address, amount: nat) -> Result<ConfigView, Error> {
        self.only_owner(caller, ConfigView { base_battle_reward_amount: amount, ..self })
    }

    pub open spec fn tiebreak_collections(self) -> TiebreakCollections {
        TiebreakCollections {
            emidas: self.emidas_token_id,
            gnogon: self.gnogon_token_id,
            validator: self.validator_v2_token_id,
        }
    }
}

impl ConfigModule {
    pub closed spec fn wf(&self) -> bool {
        &&& self.admin@.no_duplicates()
        &&& self.battle_tokens@.no_duplicates()
        &&& self.token_attributes.wf()
    }

    /// The admins and the battle collections are each listed once.
    pub proof fn lemma_listed_once(&self)
        requires
            self.wf(),
        ensures
            self@.admin.no_duplicates(),
            self@.battle_tokens.no_duplicates(),
    {
    }

    pub fn new(owner: Address) -> (r: Self)
        ensures
            r.wf(),
            r@ == ConfigView::initial(owner),
    {
        ConfigModule {
            owner,
            admin: UnorderedSet::new(),
            battle_tokens: UnorderedSet::new(),
            state: State::Inactive,
            token_attributes: Store::new(),
            gng_token_id: 0,
            emidas_token_id: 0,
            supreme_token_id: 0,
            gnogon_token_id: 0,
            validator_v2_token_id: 0,
            doga_token_id: 0,
            reward_capacity: Amount::zero(),
            daily_reward_amount: Amount::zero(),
            base_battle_reward_amount: Amount::zero(),
        }
    }

    fn require_owner(&self, caller: Address) -> (r: Result<(), Error>)
        ensures
            r is Ok <==> caller == self@.owner,
            r is Err ==> r == Err::<(), Error>(Error::OnlyOwner),
    {
        if caller == self.owner {
            Ok(())
        } else {
            Err(Error::OnlyOwner)
        }
    }

    /// Sets the collections of the five first Gnogen collections and lets
    /// them battle.
    pub fn set_battle_token(
        &mut self,
        caller: Address,
        emidas: TokenId,
        supreme: TokenId,
        gnogon: TokenId,
        validator: TokenId,
        doga: TokenId,
    ) -> (r: Result<(), Error>)
        requires
            old(self).wf(),
        ensures
            final(self).wf(),
            transition(r, old(self)@, final(self)@,
                old(self)@.after_set_battle_token(caller, emidas, supreme, gnogon, validator, doga)),
    {
        self.require_owner(caller)?;
        self.emidas_token_id = emidas;
        self.battle_tokens.insert(emidas);
        self.supreme_token_id = supreme;
        self.battle_tokens.insert(supreme);
        self.gnogon_token_id = gnogon;
        self.battle_tokens.insert(gnogon);
        self.validator_v2_token_id = validator;
        self.battle_tokens.insert(validator);
        self.doga_token_id = doga;
        self.battle_tokens.insert(doga);
        Ok(())
    }

    /// Writes the attributes of NFTs, later entries over earlier ones.
    pub fn set_attributes(&mut self, caller: Address, args: &Vec<AttributesArg>) -> (r: Result<(), Error>)
        requires
            old(self).wf(),
        ensures
            final(self).wf(),
            transition(r, old(self)@, final(self)@, old(self)@.after_set_attributes(caller, args@)),
    {
        self.require_owner(caller)?;
        let mut i: usize = 0;
        while i < args.len()
            invariant
                self.wf(),
                i <= args@.len(),
                self@ == (ConfigView {
                    token_attributes: attributes_after(old(self)@.token_attributes, args@.take(i as int)),
                    ..old(self)@
                }),
            decreases args@.len() - i,
        {
            let (token_id, nonce, power, heart, ram) = args[i];
            self.token_attributes.insert(Token { token_id, nonce }, Attributes { power, heart, ram });
            proof {
                assert(args@.take(i + 1).drop_last() =~= args@.take(i as int));
            }
            i = i + 1;
        }
        proof {
            assert(args@.take(args@.len() as int) =~= args@);
        }
        Ok(())
    }

    pub fn pause(&mut self, caller: Address) -> (r: Result<(), Error>)
        requires
            old(self).wf(),
        ensures
            final(self).wf(),
            transition(r, old(self)@, final(self)@, old(self)@.after_pause(caller)),
    {
        self.require_owner(caller)?;
        self.state = State::Inactive;
        Ok(())
    }

    pub fn resume(&mut self, caller: Address) -> (r: Result<(), Error>)
        requires
            old(self).wf(),
        ensures
            final(self).wf(),
            transition(r, old(self)@, final(self)@, old(self)@.after_resume(caller)),
    {
        self.require_owner(caller)?;
        self.state = State::Active;
        Ok(())
    }

    /// An admin adds GNG to the pool from which rewards are paid; the call
    /// must carry exactly one transfer, of fungible GNG.
    pub fn deposit_gng(&mut self, caller: Address, payments: &Vec<Payment>) -> (r: Result<(), Error>)
        requires
            old(self).wf(),
        ensures
            final(self).wf(),
            transition(r, old(self)@, final(self)@, old(self)@.after_deposit_gng(caller, payments@)),
    {
        if !self.admin.contains(&caller) {
            return Err(Error::OnlyAdmin);
        }
        if payments.len() != 1 {
            return Err(Error::IncorrectNumberOfTransfers);
        }
        let payment = &payments[0];
        if payment.nonce != 0 {
            return Err(Error::FungibleTokenExpected);
        }
        if payment.token_id != self.gng_token_id {
            return Err(Error::InvalidTokenSent);
        }
        self.reward_capacity = self.reward_capacity.add(&payment.amount);
        Ok(())
    }

    pub fn is_active(&self) -> (r: bool)
        ensures
            r == (self@.state == State::Active),
    {
        self.state == State::Active
    }

    pub fn add_admin(&mut self, caller: Address, admin: Address) -> (r: Result<(), Error>)
        requires
            old(self).wf(),
        ensures
            final(self).wf(),
            transition(r, old(self)@, final(self)@, old(self)@.after_add_admin(caller, admin)),
    {
        self.require_owner(caller)?;
        if self.admin.contains(&admin) {
            return Err(Error::AlreadyAdmin);
        }
        self.admin.insert(admin);
        Ok(())
    }

    pub fn remove_admin(&mut self, caller: Address, admin: Address) -> (r: Result<(), Error>)
        requires
            old(self).wf(),
        ensures
            final(self).wf(),
            transition(r, old(self)@, final(self)@, old(self)@.after_remove_admin(caller, admin)),
    {
        self.require_owner(caller)?;
        if self.admin.swap_remove(&admin) {
            Ok(())
        } else {
            Err(Error::NotAdmin)
        }
    }

    pub fn set_daily_reward_amount(&mut self, caller: Address, amount: Amount) -> (r: Result<(), Error>)
        requires
            old(self).wf(),
        ensures
            final(self).wf(),
            transition(r, old(self)@, final(self)@, old(self)@.after_set_daily_reward_amount(caller, amount@)),
    {
        self.require_owner(caller)?;
        self.daily_reward_amount = amount;
        Ok(())
    }

    pub fn set_base_battle_reward_amount(&mut self, caller: Address, amount: Amount) -> (r: Result<(), Error>)
        requires
            old(self).wf(),
        ensures
            final(self).wf(),
            transition(r, old(self)@, final(self)@,
                old(self)@.after_set_base_battle_reward_amount(caller, amount@)),
    {
        self.require_owner(caller)?;
        self.base_battle_reward_amount = amount;
        Ok(())
    }

    pub fn get_owner(&self) -> (r: Address)
        ensures
            r == self@.owner,
    {
        self.owner
    }

    pub fn get_admins(&self) -> (r: &Vec<Address>)
        ensures
            r@ == self@.admin,
    {
        self.admin.items()
    }

    pub fn get_battle_tokens(&self) -> (r: &Vec<TokenId>)
        ensures
            r@ == self@.battle_tokens,
    {
        self.battle_tokens.items()
    }

    pub fn is_battle_token(&self, token_id: TokenId) -> (r: bool)
        ensures
            r == self@.battle_tokens.contains(token_id),
    {
        self.battle_tokens.contains(&token_id)
    }

    pub fn get_state(&self) -> (r: State)
        ensures
            r == self@.state,
    {
        self.state
    }

    /// The attributes of an NFT, where they were written.
    pub fn attributes_of(&self, token: &Token) -> (r: Option<Attributes>)
        requires
            self.wf(),
        ensures
            r == (if self@.token_attributes.dom().contains(*token) {
                Some(self@.token_attributes[*token])
            } else {
                None
            }),
    {
        self.token_attributes.get(token)
    }

    /// The attributes of an NFT; reading those of an NFT that has none
    /// fails.
    pub fn get_token_attributes(&self, token_id: TokenId, nonce: Nonce) -> (r: Result<Attributes, Error>)
        requires
            self.wf(),
        ensures
            r == (if self@.token_attributes.dom().contains(Token { token_id, nonce }) {
                Ok(self@.token_attributes[Token { token_id, nonce }])
            } else {
                Err(Error::StorageDecode)
            }),
    {
        match self.token_attributes.get(&Token { token_id, nonce }) {
            Some(a) => Ok(a),
            None => Err(Error::StorageDecode),
        }
    }

    pub fn tiebreak_collections(&self) -> (r: TiebreakCollections)
        ensures
            r == self@.tiebreak_collections(),
    {
        TiebreakCollections {
            emidas: self.emidas_token_id,
            gnogon: self.gnogon_token_id,
            validator: self.validator_v2_token_id,
        }
    }

    pub fn get_gng_token_id(&self) -> (r: TokenId)
        ensures
            r == self@.gng_token_id,
    {
        self.gng_token_id
    }

    /// Sets the GNG collection where none is set yet.
    pub fn set_gng_token_id_if_empty(&mut self, token_id: TokenId)
        requires
            old(self).wf(),
        ensures
            final(self).wf(),
            final(self)@ == (ConfigView {
                gng_token_id: if old(self)@.gng_token_id == 0 { token_id } else { old(self)@.gng_token_id },
                ..old(self)@
            }),
    {
        if self.gng_token_id == 0 {
            self.gng_token_id = token_id;
        }
    }

    pub fn get_emidas_token_id(&self) -> (r: TokenId)
        ensures
            r == self@.emidas_token_id,
    {
        self.emidas_token_id
    }

    pub fn get_supreme_token_id(&self) -> (r: TokenId)
        ensures
            r == self@.supreme_token_id,
    {
        self.supreme_token_id
    }

    pub fn get_gnogon_token_id(&self) -> (r: TokenId)
        ensures
            r == self@.gnogon_token_id,
    {
        self.gnogon_token_id
    }

    pub fn get_validator_v2_token_id(&self) -> (r: TokenId)
        ensures
            r == self@.validator_v2_token_id,
    {
        self.validator_v2_token_id
    }

    pub fn get_doga_token_id(&self) -> (r: TokenId)
        ensures
            r == self@.doga_token_id,
    {
        self.doga_token_id
    }

    pub fn get_reward_capacity(&self) -> (r: Amount)
        ensures
            r@ == self@.reward_capacity,
    {
        self.reward_capacity.duplicate()
    }

    pub fn get_daily_reward_amount(&self) -> (r: Amount)
        ensures
            r@ == self@.daily_reward_amount,
    {
        self.daily_reward_amount.duplicate()
    }

    pub fn get_base_battle_reward_amount(&self) -> (r: Amount)
        ensures
            r@ == self@.base_battle_reward_amount,
    {
        self.base_battle_reward_amount.duplicate()
    }

    /// Takes `amount` out of the reward pool.
    pub fn take_from_reward_capacity(&mut self, amount: &Amount)
        requires
            old(self).wf(),
            amount@ <= old(self)@.reward_capacity,
        ensures
            final(self).wf(),
            final(self)@ == (ConfigView {
                reward_capacity: (old(self)@.reward_capacity - amount@) as nat,
                ..old(self)@
            }),
    {
        self.reward_capacity = self.reward_capacity.sub(amount);
    }
}

} // verus!
